//! The areas of an address space, keyed by their page intervals, held in an
//! interval map of the `iset` crate.
use vstd::prelude::*;
use iset::IntervalMap;
use crate::mm::memory_set::MapArea;

verus! {

/// The interval map of an address space: each key `(start, end)` is the page
/// interval `start..end` under which an area is stored.
#[verifier::external_body]
pub struct AreaMap {
    inner: IntervalMap<usize, MapArea>,
}

/// The entries of an `AreaMap`, by interval.
pub uninterp spec fn area_map_contents(m: AreaMap) -> Map<(usize, usize), MapArea>;

/// The order of `iset` intervals: by start, then by end.
pub open spec fn key_lt(a: (usize, usize), b: (usize, usize)) -> bool {
    a.0 < b.0 || (a.0 == b.0 && a.1 < b.1)
}

/// Whether the intervals of `q` are in strictly increasing order.
pub open spec fn sorted_keys(q: Seq<(usize, usize)>) -> bool {
    forall|i: int, j: int| 0 <= i < j < q.len() ==> key_lt(#[trigger] q[i], #[trigger] q[j])
}

/// Whether interval `k` overlaps the query `qs..qe`.
pub open spec fn overlaps(k: (usize, usize), qs: int, qe: int) -> bool {
    k.0 < qe && k.1 > qs
}

/// Whether `q` lists, in increasing order, exactly the intervals of `m` that overlap `qs..qe`.
pub open spec fn enumerates(q: Seq<(usize, usize)>, m: Map<(usize, usize), MapArea>, qs: int, qe: int) -> bool {
    &&& sorted_keys(q)
    &&& forall|k: (usize, usize)| #[trigger] q.contains(k) <==> (m.contains_key(k) && overlaps(k, qs, qe))
}

/// Whether `q` lists, in increasing order, every interval of `m`.
pub open spec fn enumerates_all(q: Seq<(usize, usize)>, m: Map<(usize, usize), MapArea>) -> bool {
    &&& sorted_keys(q)
    &&& forall|k: (usize, usize)| #[trigger] q.contains(k) <==> m.contains_key(k)
}

/// An empty map: `IntervalMap::new`.
#[verifier::external_body]
pub(crate) fn area_map_new() -> (fresh: AreaMap)
    ensures
        area_map_contents(fresh).dom().is_empty(),
{
    AreaMap { inner: IntervalMap::new() }
}

/// Stores `area` under `start..end`, replacing and returning the entry stored
/// there before: `IntervalMap::insert`, which panics on an empty interval.
#[verifier::external_body]
pub(crate) fn area_map_insert(m: &mut AreaMap, start: usize, end: usize, area: MapArea) -> (replaced: Option<MapArea>)
    requires
        start < end,
    ensures
        area_map_contents(*final(m)) == area_map_contents(*old(m)).insert((start, end), area),
        replaced == (if area_map_contents(*old(m)).contains_key((start, end)) {
            Some(area_map_contents(*old(m))[(start, end)])
        } else {
            None
        }),
{
    m.inner.insert(start..end, area)
}

/// Takes out the entry stored under exactly `start..end`: `IntervalMap::remove`,
/// which panics on an empty interval.
#[verifier::external_body]
pub(crate) fn area_map_remove(m: &mut AreaMap, start: usize, end: usize) -> (removed: Option<MapArea>)
    requires
        start < end,
    ensures
        area_map_contents(*final(m)) == area_map_contents(*old(m)).remove((start, end)),
        removed == (if area_map_contents(*old(m)).contains_key((start, end)) {
            Some(area_map_contents(*old(m))[(start, end)])
        } else {
            None
        }),
{
    m.inner.remove(start..end)
}

/// The entry stored under exactly `start..end`: `IntervalMap::get`, which
/// panics on an empty interval.
#[verifier::external_body]
pub(crate) fn area_map_get<'a>(m: &'a AreaMap, start: usize, end: usize) -> (found: Option<&'a MapArea>)
    requires
        start < end,
    ensures
        found == (if area_map_contents(*m).contains_key((start, end)) {
            Some(&area_map_contents(*m)[(start, end)])
        } else {
            None
        }),
{
    m.inner.get(start..end)
}

/// The intervals that overlap `qs..qe`, in increasing order: `IntervalMap::intervals`
/// with that query, which panics on an empty query.
#[verifier::external_body]
pub(crate) fn area_map_intervals(m: &AreaMap, qs: usize, qe: usize) -> (keys: Vec<(usize, usize)>)
    requires
        qs < qe,
    ensures
        enumerates(keys@, area_map_contents(*m), qs as int, qe as int),
{
    m.inner.intervals(qs..qe).map(|r| (r.start, r.end)).collect()
}

/// Every interval, in increasing order: `IntervalMap::intervals` with the full range.
#[verifier::external_body]
pub(crate) fn area_map_all_intervals(m: &AreaMap) -> (keys: Vec<(usize, usize)>)
    ensures
        enumerates_all(keys@, area_map_contents(*m)),
{
    m.inner.intervals(..).map(|r| (r.start, r.end)).collect()
}

/// Two increasing lists of the same intervals are the same list.
pub proof fn lemma_sorted_unique(q1: Seq<(usize, usize)>, q2: Seq<(usize, usize)>)
    requires
        sorted_keys(q1),
        sorted_keys(q2),
        forall|k: (usize, usize)| q1.contains(k) <==> q2.contains(k),
    ensures
        q1 == q2,
    decreases q1.len(),
{
    if q1.len() == 0 {
        if q2.len() > 0 {
            assert(q2.contains(q2[0]));
        }
        assert(q1 =~= q2);
    } else {
        assert(q1.contains(q1[0]));
        assert(q2.len() > 0);
        assert(q2.contains(q2[0]));
        let j1 = choose|j: int| 0 <= j < q2.len() && q2[j] == q1[0];
        let j2 = choose|j: int| 0 <= j < q1.len() && q1[j] == q2[0];
        if j1 > 0 {
            assert(key_lt(q2[0], q2[j1]));
            if j2 > 0 {
                assert(key_lt(q1[0], q1[j2]));
            }
        }
        assert(q1[0] == q2[0]);
        let r1 = q1.drop_first();
        let r2 = q2.drop_first();
        assert forall|k: (usize, usize)| r1.contains(k) implies r2.contains(k) by {
            let i = choose|i: int| 0 <= i < r1.len() && r1[i] == k;
            assert(q1[i + 1] == k);
            assert(key_lt(q1[0], q1[i + 1]));
            assert(q2.contains(k));
            let j = choose|j: int| 0 <= j < q2.len() && q2[j] == k;
            assert(j != 0);
            assert(r2[j - 1] == k);
        }
        assert forall|k: (usize, usize)| r2.contains(k) implies r1.contains(k) by {
            let i = choose|i: int| 0 <= i < r2.len() && r2[i] == k;
            assert(q2[i + 1] == k);
            assert(key_lt(q2[0], q2[i + 1]));
            assert(q1.contains(k));
            let j = choose|j: int| 0 <= j < q1.len() && q1[j] == k;
            assert(j != 0);
            assert(r1[j - 1] == k);
        }
        assert(sorted_keys(r1)) by {
            assert forall|i: int, j: int| 0 <= i < j < r1.len() implies key_lt(#[trigger] r1[i], #[trigger] r1[j]) by {
                assert(key_lt(q1[i + 1], q1[j + 1]));
            }
        }
        assert(sorted_keys(r2)) by {
            assert forall|i: int, j: int| 0 <= i < j < r2.len() implies key_lt(#[trigger] r2[i], #[trigger] r2[j]) by {
                assert(key_lt(q2[i + 1], q2[j + 1]));
            }
        }
        lemma_sorted_unique(r1, r2);
        assert(q1 =~= q2) by {
            assert forall|i: int| 0 <= i < q1.len() implies q1[i] == q2[i] by {
                if i > 0 {
                    assert(q1[i] == r1[i - 1]);
                    assert(q2[i] == r2[i - 1]);
                }
            }
        }
    }
}

} // verus!
