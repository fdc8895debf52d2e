//! Satellite arcs: temporally contiguous runs of observations from one
//! satellite, stored as index lists into the observation store, and the
//! segmenter that produces them.
//!
//! Segmentation walks each satellite's observations in ascending time order
//! and opens a new arc whenever the time gap to the previous observation
//! exceeds [`ARC_GAP_SECONDS`] — provided the pending arc already holds at
//! least two members, so that a single isolated point never forces a split
//! on its own.

use vstd::prelude::*;
use vstd::relations::sorted_by;

use crate::record::Record;
use crate::sorting::sort_indices_by_time;
use crate::sorting::spec_time_order;

verus! {

/// Largest time gap, in seconds, allowed inside one arc: the expected
/// continuity of a satellite pass.
pub const ARC_GAP_SECONDS: i64 = 120;

/// A contiguous, time-ordered run of observations from one satellite,
/// held as indices into the observation store.
#[derive(Debug, Clone)]
pub struct Arc {
    pub sat_id: u32,
    pub time_start: i64,
    pub time_end: i64,
    pub record_indices: Vec<usize>,
}

/// Mathematical image of an [`Arc`].
#[verifier::ext_equal]
pub struct ArcView {
    pub sat_id: u32,
    pub time_start: i64,
    pub time_end: i64,
    pub indices: Seq<usize>,
}

/// The views of a sequence of arcs.
pub open spec fn spec_arc_views(arcs: Seq<Arc>) -> Seq<ArcView> {
    arcs.map_values(|a: Arc| a@)
}

impl View for Arc {
    type V = ArcView;

    open spec fn view(&self) -> ArcView {
        ArcView {
            sat_id: self.sat_id,
            time_start: self.time_start,
            time_end: self.time_end,
            indices: self.record_indices@,
        }
    }
}

impl Arc {
    pub fn new(sat_id: u32, time_start: i64, time_end: i64, record_indices: Vec<usize>) -> (arc: Arc)
        ensures
            arc@ == (ArcView { sat_id, time_start, time_end, indices: record_indices@ }),
    {
        Arc { sat_id, time_start, time_end, record_indices }
    }
}

/// Ordered collection of the arcs found in one session.
pub struct ArcDatabase {
    pub arcs: Vec<Arc>,
}

impl ArcDatabase {
    pub fn new() -> (db: ArcDatabase)
        ensures
            db.arcs@.len() == 0,
    {
        ArcDatabase { arcs: Vec::new() }
    }

    pub fn insert(&mut self, arc: Arc)
        ensures
            final(self).arcs@ == old(self).arcs@.push(arc),
    {
        self.arcs.push(arc);
    }

    pub fn len(&self) -> (n: usize)
        ensures
            n == self.arcs@.len(),
    {
        self.arcs.len()
    }

    /// Rough heap footprint of the collection in bytes: the vector header
    /// plus one slot per arc (saturating at the address-space limit).
    pub fn check_memory(&self) -> (n: usize)
        ensures
            n == vstd::layout::size_of::<Vec<Arc>>()
                + self.arcs@.len() * vstd::layout::size_of::<Arc>()
            || n == usize::MAX,
    {
        let slot: usize = core::mem::size_of::<Arc>();
        let base: usize = core::mem::size_of::<Vec<Arc>>();
        match self.arcs.len().checked_mul(slot) {
            Some(bytes) => match bytes.checked_add(base) {
                Some(total) => total,
                None => usize::MAX,
            },
            None => usize::MAX,
        }
    }
}

/// Satellite ids among the first `n` records, in order of first appearance.
pub open spec fn spec_ids_upto(records: Seq<Record>, n: int) -> Seq<u32>
    decreases n,
{
    if n <= 0 {
        Seq::empty()
    } else {
        let prev = spec_ids_upto(records, n - 1);
        if prev.contains(records[n - 1].id) {
            prev
        } else {
            prev.push(records[n - 1].id)
        }
    }
}

/// Satellite ids of a session, in order of first appearance.
pub open spec fn spec_distinct_ids(records: Seq<Record>) -> Seq<u32> {
    spec_ids_upto(records, records.len() as int)
}

/// Store indices below `n` whose record carries `id`, ascending.
pub open spec fn spec_indices_upto(records: Seq<Record>, id: u32, n: int) -> Seq<usize>
    decreases n,
{
    if n <= 0 {
        Seq::empty()
    } else {
        let prev = spec_indices_upto(records, id, n - 1);
        if records[n - 1].id == id {
            prev.push((n - 1) as usize)
        } else {
            prev
        }
    }
}

/// All store indices whose record carries `id`, ascending.
pub open spec fn spec_indices_for(records: Seq<Record>, id: u32) -> Seq<usize> {
    spec_indices_upto(records, id, records.len() as int)
}

/// The same indices, re-ordered by observation time (ties by index): the
/// order in which the segmenter consumes them.
pub open spec fn spec_sorted_indices_for(records: Seq<Record>, id: u32) -> Seq<usize> {
    spec_indices_for(records, id).sort_by(spec_time_order(records))
}

proof fn lemma_ids_upto_contains(records: Seq<Record>, n: int, id: u32)
    requires
        0 <= n <= records.len(),
    ensures
        spec_ids_upto(records, n).contains(id) <==> exists|p: int|
            0 <= p < n && #[trigger] records[p].id == id,
    decreases n,
{
    if n > 0 {
        lemma_ids_upto_contains(records, n - 1, id);
        let prev = spec_ids_upto(records, n - 1);
        let cur = spec_ids_upto(records, n);
        if cur.contains(id) {
            let i = choose|i: int| 0 <= i < cur.len() && #[trigger] cur[i] == id;
            if i < prev.len() {
                assert(prev[i] == id);
                assert(prev.contains(id));
                let p = choose|p: int| 0 <= p < n - 1 && #[trigger] records[p].id == id;
                assert(0 <= p < n && records[p].id == id);
            } else {
                assert(cur != prev);
                assert(id == records[n - 1].id);
                assert(0 <= n - 1 < n && records[n - 1].id == id);
            }
        }
        if exists|p: int| 0 <= p < n && #[trigger] records[p].id == id {
            let p = choose|p: int| 0 <= p < n && #[trigger] records[p].id == id;
            if p < n - 1 {
                assert(prev.contains(id));
                let i = choose|i: int| 0 <= i < prev.len() && #[trigger] prev[i] == id;
                if cur == prev {
                    assert(cur.contains(id));
                } else {
                    assert(cur[i] == id);
                    assert(cur.contains(id));
                }
            } else {
                let last = records[n - 1].id;
                if prev.contains(last) {
                    assert(cur.contains(id));
                } else {
                    assert(cur[cur.len() - 1] == id);
                    assert(cur.contains(id));
                }
            }
        }
    }
}

proof fn lemma_ids_upto_distinct(records: Seq<Record>, n: int)
    requires
        0 <= n <= records.len(),
    ensures
        spec_ids_upto(records, n).no_duplicates(),
    decreases n,
{
    if n > 0 {
        lemma_ids_upto_distinct(records, n - 1);
        let prev = spec_ids_upto(records, n - 1);
        if !prev.contains(records[n - 1].id) {
            assert(spec_ids_upto(records, n) == prev.push(records[n - 1].id));
            assert forall|k: int, l: int|
                0 <= k < l < prev.len() + 1 implies
                #[trigger] prev.push(records[n - 1].id)[k]
                    != #[trigger] prev.push(records[n - 1].id)[l] by {
                if l < prev.len() {
                } else {
                    assert(prev[k] == prev.push(records[n - 1].id)[k]);
                }
            }
        }
    }
}

pub proof fn lemma_indices_upto_facts(records: Seq<Record>, id: u32, n: int)
    requires
        0 <= n <= records.len(),
        n <= usize::MAX,
    ensures
        forall|q: int| 0 <= q < spec_indices_upto(records, id, n).len()
            ==> #[trigger] spec_indices_upto(records, id, n)[q] < n,
        forall|q: int, r: int| 0 <= q < r < spec_indices_upto(records, id, n).len()
            ==> #[trigger] spec_indices_upto(records, id, n)[q]
                < #[trigger] spec_indices_upto(records, id, n)[r],
        forall|q: int| 0 <= q < spec_indices_upto(records, id, n).len()
            ==> records[#[trigger] spec_indices_upto(records, id, n)[q] as int].id == id,
        forall|p: usize| spec_indices_upto(records, id, n).contains(p) <==> (p < n
            && #[trigger] records[p as int].id == id),
    decreases n,
{
    if n > 0 {
        lemma_indices_upto_facts(records, id, n - 1);
        let prev = spec_indices_upto(records, id, n - 1);
        let cur = spec_indices_upto(records, id, n);
        assert forall|q: int| 0 <= q < prev.len() implies cur[q] == #[trigger] prev[q] by {}
        assert forall|p: usize| cur.contains(p) implies (p < n && records[p as int].id == id) by {
            let i = choose|i: int| 0 <= i < cur.len() && #[trigger] cur[i] == p;
            if i < prev.len() {
                assert(prev[i] == p);
                assert(prev.contains(p));
            } else {
                assert(cur != prev);
                assert(p == n - 1);
            }
        }
        assert forall|p: usize| (p < n && #[trigger] records[p as int].id == id) implies
            cur.contains(p) by {
            if (p as int) < n - 1 {
                assert(prev.contains(p));
                let i = choose|i: int| 0 <= i < prev.len() && #[trigger] prev[i] == p;
                assert(cur[i] == p);
            } else {
                assert(p == n - 1);
                assert(cur.last() == p);
            }
        }
    }
}

/// Law: the segmenter visits every satellite of the session exactly once —
/// the distinct-id list holds an id exactly when some record carries it,
/// and holds no id twice.
pub proof fn lemma_distinct_ids_exact(records: Seq<Record>)
    ensures
        spec_distinct_ids(records).no_duplicates(),
        forall|id: u32| spec_distinct_ids(records).contains(id) <==> exists|p: int|
            0 <= p < records.len() && #[trigger] records[p].id == id,
{
    lemma_ids_upto_distinct(records, records.len() as int);
    assert forall|id: u32|
        spec_distinct_ids(records).contains(id) <==> exists|p: int|
            0 <= p < records.len() && #[trigger] records[p].id == id by {
        lemma_ids_upto_contains(records, records.len() as int, id);
    }
}

/// Where the pending arc holds `count` members and the next observation sits
/// `gap` seconds after the previous one, whether the segmenter closes the
/// pending arc before taking it.
pub open spec fn spec_splits(gap: int, count: int) -> bool {
    gap > ARC_GAP_SECONDS as int && count >= 2
}

/// Time gap, in seconds, between consecutive consumed observations.
pub open spec fn spec_gap(records: Seq<Record>, idxs: Seq<usize>, j: int) -> int {
    records[idxs[j] as int].time - records[idxs[j - 1] as int].time
}

/// Positions in `idxs` where an arc begins, considering the walk up to and
/// including position `j`. Position 0 always begins an arc; position `j > 0`
/// begins one exactly when the gap before it splits the pending arc.
pub open spec fn spec_cuts(records: Seq<Record>, idxs: Seq<usize>, j: int) -> Seq<int>
    decreases j,
{
    if j <= 0 {
        seq![0]
    } else {
        let prev = spec_cuts(records, idxs, j - 1);
        if spec_splits(spec_gap(records, idxs, j), j - prev.last()) {
            prev.push(j)
        } else {
            prev
        }
    }
}

pub proof fn lemma_cuts_facts(records: Seq<Record>, idxs: Seq<usize>, j: int)
    requires
        j >= 0,
    ensures
        spec_cuts(records, idxs, j).len() >= 1,
        spec_cuts(records, idxs, j)[0] == 0,
        spec_cuts(records, idxs, j).last() <= j,
        forall|k: int, l: int| 0 <= k < l < spec_cuts(records, idxs, j).len()
            ==> #[trigger] spec_cuts(records, idxs, j)[k] < #[trigger] spec_cuts(records, idxs, j)[l],
        forall|k: int| 0 <= k < spec_cuts(records, idxs, j).len()
            ==> 0 <= #[trigger] spec_cuts(records, idxs, j)[k] <= j,
    decreases j,
{
    if j > 0 {
        lemma_cuts_facts(records, idxs, j - 1);
    }
}

/// The view of the arc spanning positions `lo..hi` of the time-sorted index
/// list of one satellite.
pub open spec fn spec_arc_of(records: Seq<Record>, id: u32, idxs: Seq<usize>, lo: int, hi: int) -> ArcView {
    ArcView {
        sat_id: id,
        time_start: records[idxs[lo] as int].time,
        time_end: records[idxs[hi - 1] as int].time,
        indices: idxs.subrange(lo, hi),
    }
}

/// The arcs of one satellite: its time-sorted indices, split at the cut
/// positions.
pub open spec fn spec_arcs_for_id(records: Seq<Record>, id: u32) -> Seq<ArcView> {
    let idxs = spec_sorted_indices_for(records, id);
    if idxs.len() == 0 {
        Seq::empty()
    } else {
        let cuts = spec_cuts(records, idxs, idxs.len() - 1);
        Seq::new(
            cuts.len(),
            |k: int| spec_arc_of(
                records,
                id,
                idxs,
                cuts[k],
                if k == cuts.len() - 1 { idxs.len() as int } else { cuts[k + 1] },
            ),
        )
    }
}

/// Arcs of the first `g` satellites (in first-appearance order of their
/// ids), concatenated.
pub open spec fn spec_arcs_upto(records: Seq<Record>, ids: Seq<u32>, g: int) -> Seq<ArcView>
    decreases g,
{
    if g <= 0 {
        Seq::empty()
    } else {
        spec_arcs_upto(records, ids, g - 1) + spec_arcs_for_id(records, ids[g - 1])
    }
}

/// Everything the segmenter returns for a session: per-satellite arcs,
/// satellites in order of first appearance.
pub open spec fn spec_find_arcs(records: Seq<Record>) -> Seq<ArcView> {
    let ids = spec_distinct_ids(records);
    spec_arcs_upto(records, ids, ids.len() as int)
}

/// Law: segmentation is deterministic. The arcs of a session are a function
/// of the observation store alone, so re-running the segmenter on the same
/// input yields identical arc boundaries.
pub proof fn lemma_segmenter_deterministic(
    records: Seq<Record>,
    arcs1: Seq<ArcView>,
    arcs2: Seq<ArcView>,
)
    requires
        arcs1 == spec_find_arcs(records),
        arcs2 == spec_find_arcs(records),
    ensures
        arcs1 == arcs2,
{
}

/// Within the walk up to position `j`, consecutive positions further than
/// one slot into their arc are never more than [`ARC_GAP_SECONDS`] apart:
/// a wider gap would have cut the arc there.
proof fn lemma_cuts_gap(records: Seq<Record>, idxs: Seq<usize>, j: int)
    requires
        j >= 0,
    ensures
        ({
            let cuts = spec_cuts(records, idxs, j);
            forall|k: int, p: int|
                #![trigger cuts[k], spec_gap(records, idxs, p)]
                0 <= k < cuts.len() && cuts[k] + 2 <= p && p <= (if k < cuts.len() - 1 {
                    cuts[k + 1] - 1
                } else {
                    j
                }) ==> spec_gap(records, idxs, p) <= ARC_GAP_SECONDS as int
        }),
    decreases j,
{
    lemma_cuts_facts(records, idxs, j);
    if j > 0 {
        lemma_cuts_gap(records, idxs, j - 1);
        lemma_cuts_facts(records, idxs, j - 1);
        let prev = spec_cuts(records, idxs, j - 1);
        let cuts = spec_cuts(records, idxs, j);
        if spec_splits(spec_gap(records, idxs, j), j - prev.last()) {
            assert(cuts == prev.push(j));
            assert forall|k: int, p: int|
                #![trigger cuts[k], spec_gap(records, idxs, p)]
                0 <= k < cuts.len() && cuts[k] + 2 <= p && p <= (if k < cuts.len() - 1 {
                    cuts[k + 1] - 1
                } else {
                    j
                }) implies spec_gap(records, idxs, p) <= ARC_GAP_SECONDS as int by {
                if k < cuts.len() - 1 {
                    assert(cuts[k] == prev[k]);
                    if k < prev.len() - 1 {
                        assert(cuts[k + 1] == prev[k + 1]);
                    } else {
                        assert(cuts[k + 1] == j);
                        assert(p <= j - 1);
                    }
                } else {
                    assert(cuts[k] == j);
                }
            }
        } else {
            assert(cuts == prev);
            assert forall|k: int, p: int|
                #![trigger cuts[k], spec_gap(records, idxs, p)]
                0 <= k < cuts.len() && cuts[k] + 2 <= p && p <= (if k < cuts.len() - 1 {
                    cuts[k + 1] - 1
                } else {
                    j
                }) implies spec_gap(records, idxs, p) <= ARC_GAP_SECONDS as int by {
                if k == cuts.len() - 1 && p == j {
                    assert(cuts[k] == prev.last());
                    assert(j - prev.last() >= 2);
                    assert(!spec_splits(spec_gap(records, idxs, j), j - prev.last()));
                }
            }
        }
    }
}

/// Pointwise form of [`lemma_cuts_gap`].
proof fn lemma_cuts_gap_at(records: Seq<Record>, idxs: Seq<usize>, j: int, k: int, p: int)
    requires
        j >= 0,
        ({
            let cuts = spec_cuts(records, idxs, j);
            &&& 0 <= k < cuts.len()
            &&& cuts[k] + 2 <= p
            &&& p <= (if k < cuts.len() - 1 {
                cuts[k + 1] - 1
            } else {
                j
            })
        }),
    ensures
        spec_gap(records, idxs, p) <= ARC_GAP_SECONDS as int,
{
    lemma_cuts_gap(records, idxs, j);
}

/// Which group and which arc within that group a flat arc position denotes.
proof fn lemma_arcs_upto_element(records: Seq<Record>, ids: Seq<u32>, g: int, a: int) -> (r: (
    int,
    int,
))
    requires
        g >= 0,
        0 <= a < spec_arcs_upto(records, ids, g).len(),
    ensures
        ({
            let (gg, k) = r;
            &&& 0 <= gg < g
            &&& 0 <= k < spec_arcs_for_id(records, ids[gg]).len()
            &&& spec_arcs_upto(records, ids, g)[a] == spec_arcs_for_id(records, ids[gg])[k]
        }),
    decreases g,
{
    assert(g > 0);
    let prev = spec_arcs_upto(records, ids, g - 1);
    if a < prev.len() {
        lemma_arcs_upto_element(records, ids, g - 1, a)
    } else {
        (g - 1, a - prev.len())
    }
}

/// Law: no arc holds two consecutive observations more than
/// [`ARC_GAP_SECONDS`] apart once the arc already holds at least two
/// members — that is, from an arc's third member on, the gap to the
/// previous member never exceeds the threshold. (The gap between an arc's
/// first and second member may exceed it: a lone stale point never forces
/// a split by itself.)
#[verifier::rlimit(50)]
pub proof fn lemma_arc_gap_bound(records: Seq<Record>, a: int, r: int)
    requires
        0 <= a < spec_find_arcs(records).len(),
        2 <= r < spec_find_arcs(records)[a].indices.len(),
    ensures
        ({
            let arc = spec_find_arcs(records)[a];
            records[arc.indices[r] as int].time - records[arc.indices[r - 1] as int].time
                <= ARC_GAP_SECONDS as int
        }),
{
    let ids = spec_distinct_ids(records);
    let (gg, k) = lemma_arcs_upto_element(records, ids, ids.len() as int, a);
    let id = ids[gg];
    let arc = spec_find_arcs(records)[a];
    let idxs = spec_sorted_indices_for(records, id);
    assert(idxs.len() > 0);
    let cuts = spec_cuts(records, idxs, idxs.len() - 1);
    lemma_cuts_facts(records, idxs, idxs.len() - 1);
    let lo = cuts[k];
    let hi = if k == cuts.len() - 1 {
        idxs.len() as int
    } else {
        cuts[k + 1]
    };
    assert(arc == spec_arc_of(records, id, idxs, lo, hi));
    assert(arc.indices == idxs.subrange(lo, hi));
    assert(lo + 2 <= hi <= idxs.len());
    let p = lo + r;
    assert(arc.indices[r] == idxs[p]);
    assert(arc.indices[r - 1] == idxs[p - 1]);
    lemma_cuts_gap_at(records, idxs, idxs.len() - 1, k, p);
    assert(spec_gap(records, idxs, p) == records[arc.indices[r] as int].time
        - records[arc.indices[r - 1] as int].time);
}

/// Law: every arc of a session references at least one observation, every
/// index it holds is a valid position of the store, and every referenced
/// observation carries the arc's satellite id — no arc ever mixes
/// satellites.
#[verifier::rlimit(50)]
pub proof fn lemma_arc_well_formed(records: Seq<Record>, a: int)
    requires
        records.len() <= usize::MAX,
        0 <= a < spec_find_arcs(records).len(),
    ensures
        spec_find_arcs(records)[a].indices.len() >= 1,
        forall|r: int|
            0 <= r < spec_find_arcs(records)[a].indices.len()
                ==> #[trigger] spec_find_arcs(records)[a].indices[r] < records.len()
                && records[spec_find_arcs(records)[a].indices[r] as int].id == spec_find_arcs(
                records,
            )[a].sat_id,
{
    let ids = spec_distinct_ids(records);
    let (gg, k) = lemma_arcs_upto_element(records, ids, ids.len() as int, a);
    let id = ids[gg];
    let arc = spec_find_arcs(records)[a];
    let idxs = spec_sorted_indices_for(records, id);
    assert(idxs.len() > 0);
    let cuts = spec_cuts(records, idxs, idxs.len() - 1);
    lemma_cuts_facts(records, idxs, idxs.len() - 1);
    let lo = cuts[k];
    let hi = if k == cuts.len() - 1 {
        idxs.len() as int
    } else {
        cuts[k + 1]
    };
    assert(arc == spec_arc_of(records, id, idxs, lo, hi));
    assert(lo < hi <= idxs.len());
    assert(arc.indices.len() >= 1);
    lemma_indices_upto_facts(records, id, records.len() as int);
    spec_indices_for(records, id).lemma_sort_by_ensures(spec_time_order(records));
    assert forall|r: int| 0 <= r < arc.indices.len() implies #[trigger] arc.indices[r]
        < records.len() && records[arc.indices[r] as int].id == arc.sat_id by {
        let p = arc.indices[r];
        assert(p == idxs[lo + r]);
        assert(idxs.contains(p));
        assert(spec_indices_for(records, id).contains(p));
        assert(p < records.len() && records[p as int].id == id);
    }
}

/// Concatenation of the index lists of a sequence of arcs.
pub open spec fn spec_concat_indices(arcs: Seq<ArcView>) -> Seq<usize>
    decreases arcs.len(),
{
    if arcs.len() == 0 {
        Seq::empty()
    } else {
        spec_concat_indices(arcs.drop_last()) + arcs.last().indices
    }
}

/// The first `m` arcs of one satellite concatenate to the prefix of its
/// time-sorted index list that ends at the `m`-th arc boundary.
proof fn lemma_concat_prefix(records: Seq<Record>, id: u32, m: int)
    requires
        spec_sorted_indices_for(records, id).len() > 0,
        0 <= m <= spec_arcs_for_id(records, id).len(),
    ensures
        ({
            let idxs = spec_sorted_indices_for(records, id);
            let cuts = spec_cuts(records, idxs, idxs.len() - 1);
            let arcs = spec_arcs_for_id(records, id);
            spec_concat_indices(arcs.take(m)) == idxs.subrange(
                0,
                if m == 0 {
                    0
                } else if m == cuts.len() {
                    idxs.len() as int
                } else {
                    cuts[m]
                },
            )
        }),
    decreases m,
{
    let idxs = spec_sorted_indices_for(records, id);
    let cuts = spec_cuts(records, idxs, idxs.len() - 1);
    let arcs = spec_arcs_for_id(records, id);
    lemma_cuts_facts(records, idxs, idxs.len() - 1);
    if m == 0 {
        assert(spec_concat_indices(arcs.take(0)) =~= idxs.subrange(0, 0));
    } else {
        lemma_concat_prefix(records, id, m - 1);
        let upper = if m == cuts.len() {
            idxs.len() as int
        } else {
            cuts[m]
        };
        let lower = if m == 1 {
            0int
        } else {
            cuts[m - 1]
        };
        assert(arcs.take(m).drop_last() =~= arcs.take(m - 1));
        assert(arcs.take(m).last() == arcs[m - 1]);
        assert(arcs[m - 1].indices == idxs.subrange(lower, upper));
        assert(cuts[0] == 0);
        assert(spec_concat_indices(arcs.take(m)) =~= idxs.subrange(0, upper));
    }
}

/// Law: for one satellite, the arcs' index lists concatenate back to the
/// full time-sorted index list. Together with the facts below, every store
/// index whose record carries the id appears in exactly one arc, exactly
/// once, and no other index appears at all: segmentation neither drops nor
/// duplicates observations. (That no arc of another satellite can hold such
/// an index is [`lemma_arc_well_formed`]; that the satellites themselves
/// are visited exactly once is [`lemma_distinct_ids_exact`].)
pub proof fn lemma_arcs_partition_id(records: Seq<Record>, id: u32)
    requires
        records.len() <= usize::MAX,
    ensures
        spec_concat_indices(spec_arcs_for_id(records, id)) == spec_sorted_indices_for(
            records,
            id,
        ),
        spec_sorted_indices_for(records, id).to_multiset() == spec_indices_for(
            records,
            id,
        ).to_multiset(),
        spec_indices_for(records, id).no_duplicates(),
        spec_sorted_indices_for(records, id).no_duplicates(),
        forall|p: usize|
            spec_indices_for(records, id).contains(p) <==> (p < records.len()
                && #[trigger] records[p as int].id == id),
{
    let idxs = spec_sorted_indices_for(records, id);
    let arcs = spec_arcs_for_id(records, id);
    lemma_indices_upto_facts(records, id, records.len() as int);
    spec_indices_for(records, id).lemma_sort_by_ensures(spec_time_order(records));
    assert(spec_indices_for(records, id).no_duplicates()) by {
        let s = spec_indices_for(records, id);
        assert forall|q: int, w: int| 0 <= q < s.len() && 0 <= w < s.len() && q != w implies
            s[q] != s[w] by {
            if q < w {
                assert(s[q] < s[w]);
            } else {
                assert(s[w] < s[q]);
            }
        }
    }
    assert(idxs.no_duplicates()) by {
        spec_indices_for(records, id).lemma_multiset_has_no_duplicates();
        idxs.lemma_multiset_has_no_duplicates_conv();
    }
    if idxs.len() == 0 {
        assert(spec_concat_indices(arcs) =~= idxs);
    } else {
        let cuts = spec_cuts(records, idxs, idxs.len() - 1);
        lemma_cuts_facts(records, idxs, idxs.len() - 1);
        lemma_concat_prefix(records, id, cuts.len() as int);
        assert(arcs.take(arcs.len() as int) =~= arcs);
        assert(idxs.subrange(0, idxs.len() as int) =~= idxs);
    }
}

/// Position of `id` in a list of ids, if present.
fn find_id_position(ids: &Vec<u32>, id: u32) -> (r: Option<usize>)
    ensures
        match r {
            Some(p) => p < ids@.len() && ids@[p as int] == id,
            None => !ids@.contains(id),
        },
{
    let mut k: usize = 0;
    while k < ids.len()
        invariant
            k <= ids@.len(),
            forall|q: int| 0 <= q < k ==> ids@[q] != id,
        decreases ids@.len() - k,
    {
        if ids[k] == id {
            return Some(k);
        }
        k = k + 1;
    }
    proof {
        assert(!ids@.contains(id)) by {
            if ids@.contains(id) {
                let q = choose|q: int| 0 <= q < ids@.len() && #[trigger] ids@[q] == id;
                assert(ids@[q] != id);
            }
        }
    }
    None
}

/// The satellite ids of a session, in order of first appearance.
fn distinct_ids(records: &Vec<Record>) -> (ids: Vec<u32>)
    ensures
        ids@ == spec_distinct_ids(records@),
{
    let n: usize = records.len();
    let mut ids: Vec<u32> = Vec::new();
    let mut i: usize = 0;
    while i < n
        invariant
            i <= n,
            n == records@.len(),
            ids@ == spec_ids_upto(records@, i as int),
        decreases n - i,
    {
        let id: u32 = records[i].id;
        match find_id_position(&ids, id) {
            Some(_) => {
                proof {
                    assert(ids@.contains(id));
                }
            },
            None => {
                ids.push(id);
            },
        }
        i = i + 1;
    }
    ids
}

/// All store indices whose record carries `id`, ascending.
fn collect_indices(records: &Vec<Record>, id: u32) -> (idxs: Vec<usize>)
    ensures
        idxs@ == spec_indices_for(records@, id),
{
    let n: usize = records.len();
    let mut idxs: Vec<usize> = Vec::new();
    let mut i: usize = 0;
    while i < n
        invariant
            i <= n,
            n == records@.len(),
            idxs@ == spec_indices_upto(records@, id, i as int),
        decreases n - i,
    {
        if records[i].id == id {
            idxs.push(i);
        }
        i = i + 1;
    }
    idxs
}

/// Copies `idxs[lo..hi]` into a fresh vector.
fn copy_range(idxs: &Vec<usize>, lo: usize, hi: usize) -> (out: Vec<usize>)
    requires
        lo <= hi <= idxs@.len(),
    ensures
        out@ == idxs@.subrange(lo as int, hi as int),
{
    let mut out: Vec<usize> = Vec::new();
    let mut k: usize = lo;
    while k < hi
        invariant
            lo <= k <= hi <= idxs@.len(),
            out@ == idxs@.subrange(lo as int, k as int),
        decreases hi - k,
    {
        out.push(idxs[k]);
        k = k + 1;
        proof {
            assert(idxs@.subrange(lo as int, k as int)
                =~= idxs@.subrange(lo as int, k - 1).push(idxs@[k - 1]));
        }
    }
    out
}

/// Splits the observations of one satellite into arcs: its store indices
/// are walked in ascending time order, and a new arc opens wherever the
/// time gap exceeds [`ARC_GAP_SECONDS`] while the pending arc already holds
/// at least two members.
fn segment_group(records: &Vec<Record>, id: u32, idxs: Vec<usize>) -> (group: Vec<Arc>)
    requires
        idxs@ == spec_indices_for(records@, id),
    ensures
        spec_arc_views(group@) == spec_arcs_for_id(records@, id),
{
    let mut idxs = idxs;
    let rn: usize = records.len();
    proof {
        lemma_indices_upto_facts(records@, id, rn as int);
    }
    sort_indices_by_time(records, &mut idxs);
    let ghost sidxs = idxs@;
    proof {
        spec_indices_for(records@, id).lemma_sort_by_ensures(spec_time_order(records@));
        assert forall|p: int| 0 <= p < sidxs.len() implies #[trigger] sidxs[p] < records@.len() by {
            assert(sidxs.contains(sidxs[p]));
            assert(spec_indices_for(records@, id).contains(sidxs[p]));
        }
    }
    let mut group: Vec<Arc> = Vec::new();
    let n: usize = idxs.len();
    if n == 0 {
        proof {
            assert(spec_arc_views(group@) =~= spec_arcs_for_id(records@, id));
        }
        return group;
    }

    let mut pending_start: usize = 0;
    let mut arc_start_time: i64 = records[idxs[0]].time;
    let mut last_time: i64 = arc_start_time;
    let mut j: usize = 1;
    while j < n
        invariant
            1 <= j <= n,
            n == idxs@.len(),
            idxs@ == sidxs,
            sidxs == spec_sorted_indices_for(records@, id),
            forall|p: int| 0 <= p < n ==> #[trigger] sidxs[p] < records@.len(),
            pending_start < j,
            ({
                let cuts = spec_cuts(records@, sidxs, j - 1);
                &&& pending_start as int == cuts.last()
                &&& spec_arc_views(group@) == Seq::new(
                    (cuts.len() - 1) as nat,
                    |k: int| spec_arc_of(records@, id, sidxs, cuts[k], cuts[k + 1]),
                )
            }),
            arc_start_time == records@[sidxs[pending_start as int] as int].time,
            last_time == records@[sidxs[j - 1] as int].time,
        decreases n - j,
    {
        let ghost cuts = spec_cuts(records@, sidxs, j - 1);
        proof {
            lemma_cuts_facts(records@, sidxs, j - 1);
        }
        let t: i64 = records[idxs[j]].time;
        let splits: bool = (t as i128) - (last_time as i128) > (ARC_GAP_SECONDS as i128)
            && j - pending_start >= 2;
        proof {
            assert(splits == spec_splits(spec_gap(records@, sidxs, j as int), j - cuts.last()));
        }
        if splits {
            let arc_indices = copy_range(&idxs, pending_start, j);
            let arc = Arc::new(id, arc_start_time, last_time, arc_indices);
            let ghost pregroup = group@;
            group.push(arc);
            proof {
                let newcuts = spec_cuts(records@, sidxs, j as int);
                assert(newcuts == cuts.push(j as int));
                let lhs = spec_arc_views(group@);
                let prevmap = spec_arc_views(pregroup);
                let target = Seq::new(
                    (newcuts.len() - 1) as nat,
                    |k: int| spec_arc_of(records@, id, sidxs, newcuts[k], newcuts[k + 1]),
                );
                assert(group@ == pregroup.push(arc));
                assert(lhs.len() == pregroup.len() + 1);
                assert(cuts.len() >= 1);
                assert(prevmap.len() == cuts.len() - 1);
                assert(lhs.len() == cuts.len());
                assert(target.len() == cuts.len());
                assert forall|k: int| 0 <= k < lhs.len() implies lhs[k] == target[k] by {
                    if k < lhs.len() - 1 {
                        assert(group@[k] == pregroup[k]);
                        assert(lhs[k] == prevmap[k]);
                        assert(newcuts[k] == cuts[k]);
                        assert(newcuts[k + 1] == cuts[k + 1]);
                    } else {
                        assert(group@[k] == arc);
                        assert(newcuts[k] == cuts.last());
                        assert(newcuts[k + 1] == j as int);
                        assert(arc@.indices == sidxs.subrange(cuts.last(), j as int));
                        assert(lhs[k] == target[k]);
                    }
                }
                assert(lhs =~= target);
            }
            pending_start = j;
            arc_start_time = t;
        } else {
            proof {
                assert(spec_cuts(records@, sidxs, j as int) == cuts);
            }
        }
        last_time = t;
        j = j + 1;
    }
    let arc_indices = copy_range(&idxs, pending_start, n);
    let arc = Arc::new(id, arc_start_time, last_time, arc_indices);
    let ghost pregroup = group@;
    group.push(arc);
    proof {
        let cuts = spec_cuts(records@, sidxs, n - 1);
        lemma_cuts_facts(records@, sidxs, n - 1);
        let lhs = spec_arc_views(group@);
        let prevmap = spec_arc_views(pregroup);
        let target = spec_arcs_for_id(records@, id);
        assert(target == Seq::new(
            cuts.len(),
            |k: int| spec_arc_of(
                records@,
                id,
                sidxs,
                cuts[k],
                if k == cuts.len() - 1 { sidxs.len() as int } else { cuts[k + 1] },
            ),
        ));
        assert forall|k: int| 0 <= k < lhs.len() implies lhs[k] == target[k] by {
            if k < lhs.len() - 1 {
                assert(group@[k] == pregroup[k]);
                assert(lhs[k] == prevmap[k]);
            } else {
                assert(group@[k] == arc);
                assert(arc@.indices == sidxs.subrange(cuts.last(), n as int));
                assert(lhs[k] == target[k]);
            }
        }
        assert(lhs =~= target);
    }
    group
}

/// Groups the observation store's records by satellite id and splits each
/// group into temporally contiguous arcs. Satellites appear in order of
/// first appearance; each satellite's observations are consumed in
/// ascending time order; a gap above [`ARC_GAP_SECONDS`] closes the pending
/// arc once it holds at least two members; the pending arc is always
/// emitted at end of input, whatever its size.
pub fn find_arcs(records: &Vec<Record>) -> (arcs: Vec<Arc>)
    ensures
        spec_arc_views(arcs@) == spec_find_arcs(records@),
{
    let ids: Vec<u32> = distinct_ids(records);
    let mut arcs: Vec<Arc> = Vec::new();
    let mut g: usize = 0;
    while g < ids.len()
        invariant
            g <= ids@.len(),
            ids@ == spec_distinct_ids(records@),
            spec_arc_views(arcs@) == spec_arcs_upto(records@, ids@, g as int),
        decreases ids@.len() - g,
    {
        let idxs: Vec<usize> = collect_indices(records, ids[g]);
        let mut group: Vec<Arc> = segment_group(records, ids[g], idxs);
        let ghost pre = arcs@;
        let ghost pregroup = group@;
        arcs.append(&mut group);
        proof {
            assert(arcs@ == pre + pregroup);
            assert(spec_arc_views(arcs@)
                =~~= spec_arcs_upto(records@, ids@, g + 1));
        }
        g = g + 1;
    }
    arcs
}

} // verus!
