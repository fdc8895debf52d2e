//! Height resolver support: outlier rejection over the per-arc candidate
//! heights by interquartile-range filtering with simple positional
//! quartiles. Heights are carried as integer-scaled values (such as
//! millimetres, the resolution of the candidate-height grid), so the
//! acceptance window is exact.

use vstd::prelude::*;

use crate::sorting::sort_i64;
use crate::sorting::spec_i64_order;

verus! {

/// First positional quartile of a sorted sequence: `sorted[n/4]`.
pub open spec fn spec_q1(sorted: Seq<i64>) -> i64 {
    sorted[sorted.len() as int / 4]
}

/// Third positional quartile of a sorted sequence: `sorted[3n/4]`.
pub open spec fn spec_q3(sorted: Seq<i64>) -> i64 {
    sorted[3 * sorted.len() as int / 4]
}

/// Whether a value lies inside the acceptance window
/// `[Q1 - 1.5·IQR, Q3 + 1.5·IQR]`, stated over doubled values so that the
/// half steps stay exact in integer arithmetic.
pub open spec fn spec_iqr_keeps(q1: i64, q3: i64, x: i64) -> bool {
    let iqr = q3 - q1;
    &&& 2 * x >= 2 * q1 - 3 * iqr
    &&& 2 * x <= 2 * q3 + 3 * iqr
}

/// The acceptance test as a predicate on values.
pub open spec fn spec_iqr_pred(q1: i64, q3: i64) -> spec_fn(i64) -> bool {
    |x: i64| spec_iqr_keeps(q1, q3, x)
}

/// What outlier rejection leaves: fewer than four samples pass through
/// unchanged (no rejection); otherwise the samples are sorted ascending and
/// every sample outside the acceptance window is dropped.
pub open spec fn spec_iqr_filtered(values: Seq<i64>) -> Seq<i64> {
    if values.len() < 4 {
        values
    } else {
        let sorted = values.sort_by(spec_i64_order());
        sorted.filter(spec_iqr_pred(spec_q1(sorted), spec_q3(sorted)))
    }
}

/// Drops outlier heights in place: with at least four samples, the samples
/// are sorted ascending, positional quartiles `Q1 = sorted[n/4]` and
/// `Q3 = sorted[3n/4]` are taken without interpolation, and only samples
/// within `[Q1 - 1.5·IQR, Q3 + 1.5·IQR]` are retained (in sorted order).
/// With fewer than four samples, no rejection happens.
pub fn remove_outliers_iqr(values: &mut Vec<i64>)
    ensures
        final(values)@ == spec_iqr_filtered(old(values)@),
{
    if values.len() < 4 {
        return;
    }
    sort_i64(values);
    let ghost sorted = values@;
    proof {
        old(values)@.lemma_sort_by_ensures(spec_i64_order());
        sorted.to_multiset_ensures();
        old(values)@.to_multiset_ensures();
        assert(sorted.to_multiset().len() == sorted.len());
        assert(sorted.len() == old(values)@.len());
    }
    let n: usize = values.len();
    let q1: i64 = values[n / 4];
    let q3_wide: u128 = (3u128 * (n as u128)) / 4;
    proof {
        assert(q3_wide < n as u128) by (nonlinear_arith)
            requires
                n >= 4,
                q3_wide == (3u128 * (n as u128)) / 4,
        {
        }
    }
    let q3_pos: usize = q3_wide as usize;
    proof {
        assert(q3_pos as int == 3 * (n as int) / 4);
    }
    let q3: i64 = values[q3_pos];
    let ghost pred = spec_iqr_pred(q1, q3);
    let mut out: Vec<i64> = Vec::new();
    let mut k: usize = 0;
    while k < n
        invariant
            k <= n,
            n == values@.len(),
            values@ == sorted,
            q1 == spec_q1(sorted),
            q3 == spec_q3(sorted),
            pred == spec_iqr_pred(q1, q3),
            out@ == sorted.subrange(0, k as int).filter(pred),
        decreases n - k,
    {
        let x: i64 = values[k];
        let keep: bool = 2 * (x as i128) >= 2 * (q1 as i128) - 3 * ((q3 as i128) - (q1 as i128))
            && 2 * (x as i128) <= 2 * (q3 as i128) + 3 * ((q3 as i128) - (q1 as i128));
        proof {
            assert(keep == spec_iqr_keeps(q1, q3, x));
        }
        if keep {
            out.push(x);
        }
        k = k + 1;
        proof {
            reveal_with_fuel(Seq::filter, 2);
            assert(sorted.subrange(0, k as int).drop_last() =~= sorted.subrange(0, k - 1));
            assert(sorted.subrange(0, k as int).last() == sorted[k - 1]);
            assert(out@ == sorted.subrange(0, k as int).filter(pred));
        }
    }
    proof {
        assert(sorted.subrange(0, n as int) =~= sorted);
    }
    *values = out;
}

} // verus!
