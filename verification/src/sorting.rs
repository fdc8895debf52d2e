//! Verified selection sorts: store indices ordered by observation time (used
//! by the segmenter) and plain values ordered numerically (used by the
//! height resolver).

use vstd::prelude::*;
use vstd::relations::{sorted_by, total_ordering};
use vstd::seq_lib::lemma_sorted_unique;

use crate::record::Record;

verus! {

/// Order on store indices used by the segmenter: by observation time,
/// with ties broken by the index itself, so that the order is total.
pub open spec fn spec_time_order(records: Seq<Record>) -> spec_fn(usize, usize) -> bool {
    |a: usize, b: usize|
        records[a as int].time < records[b as int].time
            || (records[a as int].time == records[b as int].time && a <= b)
}

pub proof fn lemma_time_order_total(records: Seq<Record>)
    ensures
        total_ordering(spec_time_order(records)),
{
}

/// Natural order on i64 values.
pub open spec fn spec_i64_order() -> spec_fn(i64, i64) -> bool {
    |a: i64, b: i64| a <= b
}

pub proof fn lemma_i64_order_total()
    ensures
        total_ordering(spec_i64_order()),
{
}

/// A sorted sequence with the right multiset is the one `sort_by` names.
proof fn lemma_sorted_multiset_is_sort_by<T>(s: Seq<T>, orig: Seq<T>, leq: spec_fn(T, T) -> bool)
    requires
        total_ordering(leq),
        sorted_by(s, leq),
        s.to_multiset() == orig.to_multiset(),
    ensures
        s == orig.sort_by(leq),
{
    orig.lemma_sort_by_ensures(leq);
    lemma_sorted_unique(s, orig.sort_by(leq), leq);
}

/// Exchanging two slots of a sequence keeps its multiset.
proof fn lemma_swap_multiset<T>(s: Seq<T>, i: int, m: int)
    requires
        0 <= i < s.len(),
        0 <= m < s.len(),
    ensures
        s.update(i, s[m]).update(m, s[i]).to_multiset() == s.to_multiset(),
{
    broadcast use vstd::seq_lib::group_to_multiset_ensures;
    broadcast use vstd::multiset::group_multiset_axioms;

    let s1 = s.update(i, s[m]);
    if i == m {
        assert(s.update(i, s[m]).update(m, s[i]) =~= s);
    } else {
        assert(s1[m] == s[m]);
        assert(s1.update(m, s[i]).to_multiset() =~= s.to_multiset());
    }
}

/// Whether the observation at index `a` comes strictly before the one at
/// index `b` in the segmenter's total order.
fn time_before(records: &Vec<Record>, a: usize, b: usize) -> (r: bool)
    requires
        a < records@.len(),
        b < records@.len(),
    ensures
        r == (spec_time_order(records@)(a, b) && a != b),
{
    let ta: i64 = records[a].time;
    let tb: i64 = records[b].time;
    ta < tb || (ta == tb && a < b)
}

/// Position of the time-least index among `idxs[from..]`.
fn min_position_by_time(records: &Vec<Record>, idxs: &Vec<usize>, from: usize) -> (m: usize)
    requires
        from < idxs@.len(),
        forall|p: int| 0 <= p < idxs@.len() ==> idxs@[p] < records@.len(),
    ensures
        from <= m < idxs@.len(),
        forall|k: int| from <= k < idxs@.len()
            ==> #[trigger] spec_time_order(records@)(idxs@[m as int], idxs@[k]),
{
    let ghost leq = spec_time_order(records@);
    let n: usize = idxs.len();
    let mut m: usize = from;
    let mut j: usize = from + 1;
    while j < n
        invariant
            from <= m < j <= n,
            n == idxs@.len(),
            leq == spec_time_order(records@),
            forall|p: int| 0 <= p < n ==> idxs@[p] < records@.len(),
            forall|k: int| from <= k < j ==> #[trigger] leq(idxs@[m as int], idxs@[k]),
        decreases n - j,
    {
        if time_before(records, idxs[j], idxs[m]) {
            proof {
                let jv = idxs@[j as int];
                let mv = idxs@[m as int];
                assert forall|k: int| from <= k < j + 1 implies #[trigger] leq(jv, idxs@[k]) by {
                    if k < j {
                        assert(leq(mv, idxs@[k]));
                        assert(leq(jv, mv));
                    } else {
                        assert(leq(jv, jv));
                    }
                }
            }
            m = j;
        } else {
            proof {
                let jv = idxs@[j as int];
                let mv = idxs@[m as int];
                assert(leq(mv, jv));
            }
        }
        j = j + 1;
    }
    m
}

/// Position of the least value among `values[from..]`.
fn min_position_i64(values: &Vec<i64>, from: usize) -> (m: usize)
    requires
        from < values@.len(),
    ensures
        from <= m < values@.len(),
        forall|k: int| from <= k < values@.len() ==> values@[m as int] <= #[trigger] values@[k],
{
    let n: usize = values.len();
    let mut m: usize = from;
    let mut j: usize = from + 1;
    while j < n
        invariant
            from <= m < j <= n,
            n == values@.len(),
            forall|k: int| from <= k < j ==> values@[m as int] <= #[trigger] values@[k],
        decreases n - j,
    {
        if values[j] < values[m] {
            m = j;
        }
        j = j + 1;
    }
    m
}

/// Sorts store indices by observation time (ties by index), as required
/// before walking a satellite's observations for arc splitting.
pub fn sort_indices_by_time(records: &Vec<Record>, idxs: &mut Vec<usize>)
    requires
        forall|p: int| 0 <= p < old(idxs)@.len() ==> old(idxs)@[p] < records@.len(),
    ensures
        final(idxs)@ == old(idxs)@.sort_by(spec_time_order(records@)),
{
    let ghost leq = spec_time_order(records@);
    let ghost orig = idxs@;
    let n: usize = idxs.len();
    let mut i: usize = 0;
    while i < n
        invariant
            i <= n,
            n == idxs@.len(),
            orig.len() == n,
            leq == spec_time_order(records@),
            forall|p: int| 0 <= p < n ==> idxs@[p] < records@.len(),
            idxs@.to_multiset() == orig.to_multiset(),
            sorted_by(idxs@.subrange(0, i as int), leq),
            forall|k: int, l: int| 0 <= k < i <= l < n ==> #[trigger] leq(idxs@[k], idxs@[l]),
        decreases n - i,
    {
        let m: usize = min_position_by_time(records, idxs, i);
        let ghost pre = idxs@;
        let vi: usize = idxs[i];
        let vm: usize = idxs[m];
        idxs.set(i, vm);
        idxs.set(m, vi);
        proof {
            lemma_swap_multiset(pre, i as int, m as int);
            assert(idxs@ =~= pre.update(i as int, pre[m as int]).update(m as int, pre[i as int]));
            assert(sorted_by(idxs@.subrange(0, (i + 1) as int), leq)) by {
                let sub = idxs@.subrange(0, (i + 1) as int);
                assert forall|k: int, l: int| 0 <= k < l < sub.len() implies #[trigger] leq(sub[k], sub[l]) by {
                    if l < i {
                        assert(sub[k] == pre.subrange(0, i as int)[k]);
                        assert(sub[l] == pre.subrange(0, i as int)[l]);
                    } else {
                        assert(sub[l] == pre[m as int]);
                        assert(sub[k] == pre[k]);
                        assert(leq(pre[k], pre[m as int]));
                    }
                }
            }
            assert forall|k: int, l: int| 0 <= k < i + 1 <= l < n implies #[trigger] leq(idxs@[k], idxs@[l]) by {
                let lv = idxs@[l];
                assert(lv == pre[l] || lv == pre[i as int]);
                if k < i {
                    assert(leq(pre[k], lv));
                    assert(idxs@[k] == pre[k]);
                } else {
                    assert(idxs@[k] == pre[m as int]);
                    assert(leq(pre[m as int], pre[l]));
                    assert(leq(pre[m as int], pre[i as int]));
                }
            }
        }
        i = i + 1;
    }
    proof {
        lemma_time_order_total(records@);
        assert(idxs@.subrange(0, n as int) =~= idxs@);
        lemma_sorted_multiset_is_sort_by(idxs@, orig, leq);
    }
}

/// Sorts plain 64-bit values ascending, as the height resolver requires
/// before taking positional quartiles.
pub fn sort_i64(values: &mut Vec<i64>)
    ensures
        final(values)@ == old(values)@.sort_by(spec_i64_order()),
{
    let ghost leq = spec_i64_order();
    let ghost orig = values@;
    let n: usize = values.len();
    let mut i: usize = 0;
    while i < n
        invariant
            i <= n,
            n == values@.len(),
            orig.len() == n,
            leq == spec_i64_order(),
            values@.to_multiset() == orig.to_multiset(),
            sorted_by(values@.subrange(0, i as int), leq),
            forall|k: int, l: int| 0 <= k < i <= l < n ==> #[trigger] leq(values@[k], values@[l]),
        decreases n - i,
    {
        let m: usize = min_position_i64(values, i);
        let ghost pre = values@;
        let vi: i64 = values[i];
        let vm: i64 = values[m];
        values.set(i, vm);
        values.set(m, vi);
        proof {
            lemma_swap_multiset(pre, i as int, m as int);
            assert(values@ =~= pre.update(i as int, pre[m as int]).update(m as int, pre[i as int]));
            assert(sorted_by(values@.subrange(0, (i + 1) as int), leq)) by {
                let sub = values@.subrange(0, (i + 1) as int);
                assert forall|k: int, l: int| 0 <= k < l < sub.len() implies #[trigger] leq(sub[k], sub[l]) by {
                    if l < i {
                        assert(sub[k] == pre.subrange(0, i as int)[k]);
                        assert(sub[l] == pre.subrange(0, i as int)[l]);
                    } else {
                        assert(sub[l] == pre[m as int]);
                        assert(sub[k] == pre[k]);
                        assert(leq(pre[k], pre[m as int]));
                    }
                }
            }
            assert forall|k: int, l: int| 0 <= k < i + 1 <= l < n implies #[trigger] leq(values@[k], values@[l]) by {
                let lv = values@[l];
                assert(lv == pre[l] || lv == pre[i as int]);
                if k < i {
                    assert(leq(pre[k], lv));
                    assert(values@[k] == pre[k]);
                } else {
                    assert(values@[k] == pre[m as int]);
                    assert(leq(pre[m as int], pre[l]));
                    assert(leq(pre[m as int], pre[i as int]));
                }
            }
        }
        i = i + 1;
    }
    proof {
        lemma_i64_order_total();
        assert(values@.subrange(0, n as int) =~= values@);
        lemma_sorted_multiset_is_sort_by(values@, orig, leq);
    }
}

} // verus!
