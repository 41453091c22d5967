//! LiDAR flightline overlap core.
//!
//! Points carry scaled planar coordinates and scaled GPS times (one
//! fixed-point scale for coordinates and the grid resolution, one for
//! times and the temporal threshold).  Each point is stored in a
//! fixed-radius index with bucket size equal to the grid resolution;
//! for every cell, the points inside the cell's square footprint are
//! collected and their times clustered by temporal gaps — the cluster
//! count is the number of flight passes covering the cell.

use vstd::multiset::Multiset;
use vstd::prelude::*;

use crate::grid::Grid2D;
use crate::index::{coord_ok, dist2, FixedRadiusIndex, IndexEntry, COORD_LIMIT, RADIUS_LIMIT};
use crate::CoreError;

verus! {

broadcast use
    vstd::multiset::group_multiset_axioms,
    vstd::seq_lib::to_multiset_build,
    vstd::seq_lib::to_multiset_insert,
    vstd::seq_lib::to_multiset_contains,
;

/// Output raster nodata for the overlap tool.
pub const LFO_NODATA: i64 = -32768;

/// One LiDAR point record, already reduced to what the tool reads.
#[derive(Clone, Copy, PartialEq, Eq, Structural, Debug)]
pub struct LfoPoint {
    pub x: i64,
    pub y: i64,
    pub time: i64,
}

// ---------------------------------------------------------------------
// Input gate.
// ---------------------------------------------------------------------

/// LAS point formats 1 and 3 carry GPS time; the others the tool reads
/// do not and are rejected before any work.
pub open spec fn format_has_time(fmt: u8) -> bool {
    fmt == 1 || fmt == 3
}

pub fn check_point_format(fmt: u8) -> (res: Result<(), CoreError>)
    ensures
        res is Ok <==> format_has_time(fmt),
        res is Err ==> res == Result::<(), CoreError>::Err(CoreError::InvalidInput),
{
    if fmt == 1 || fmt == 3 {
        Ok(())
    } else {
        Err(CoreError::InvalidInput)
    }
}

// ---------------------------------------------------------------------
// Temporal clustering.
// ---------------------------------------------------------------------

pub open spec fn sorted(s: Seq<i64>) -> bool {
    forall|i: int, j: int| 0 <= i <= j < s.len() ==> s[i] <= s[j]
}

/// Number of adjacent gaps exceeding `thr`.
pub open spec fn spec_gaps(s: Seq<i64>, thr: int) -> int
    decreases s.len(),
{
    if s.len() <= 1 {
        0
    } else {
        spec_gaps(s.drop_last(), thr) + if s[s.len() - 1] - s[s.len() - 2] > thr {
            1int
        } else {
            0int
        }
    }
}

/// Cluster count of a sorted time sequence: one cluster, plus one for
/// every adjacent gap exceeding the threshold.
pub open spec fn spec_clusters(s: Seq<i64>, thr: int) -> int {
    if s.len() == 0 {
        0
    } else {
        1 + spec_gaps(s, thr)
    }
}

pub proof fn lemma_gaps_bounds(s: Seq<i64>, thr: int)
    ensures
        0 <= spec_gaps(s, thr) <= if s.len() <= 1 {
            0int
        } else {
            s.len() - 1
        },
    decreases s.len(),
{
    if s.len() > 1 {
        lemma_gaps_bounds(s.drop_last(), thr);
    }
}

/// Insertion sort of a time list; the output is the ascending
/// rearrangement of the input.
pub fn sort_times(v: &Vec<i64>) -> (out: Vec<i64>)
    ensures
        sorted(out@),
        out@.to_multiset() == v@.to_multiset(),
        out@.len() == v@.len(),
{
    let mut out: Vec<i64> = Vec::new();
    let mut i: usize = 0;
    proof {
        assert(v@.take(0) =~= Seq::<i64>::empty());
    }
    while i < v.len()
        invariant
            i <= v@.len(),
            sorted(out@),
            out@.to_multiset() == v@.take(i as int).to_multiset(),
            out@.len() == i,
        decreases v@.len() - i,
    {
        let x = v[i];
        let mut pos: usize = 0;
        while pos < out.len() && out[pos] <= x
            invariant
                pos <= out@.len(),
                forall|k: int| 0 <= k < pos ==> out@[k] <= x,
                sorted(out@),
            decreases out@.len() - pos,
        {
            pos = pos + 1;
        }
        let ghost out_old = out@;
        out.insert(pos, x);
        proof {
            out_old.insert_ensures(pos as int, x);
            assert forall|a: int, b: int| 0 <= a <= b < out@.len() implies out@[a] <= out@[b] by {
                if a == b {
                } else if b < pos {
                    assert(out@[a] == out_old[a] && out@[b] == out_old[b]);
                } else if a < pos && b == pos {
                    assert(out@[a] == out_old[a] && out@[b] == x);
                } else if a == pos && b > pos {
                    assert(out@[a] == x && out@[b] == out_old[b - 1]);
                    assert(out_old[pos as int] > x || pos == out_old.len());
                    assert(out_old[b - 1] >= out_old[pos as int]);
                } else if a < pos && b > pos {
                    assert(out@[a] == out_old[a] && out@[b] == out_old[b - 1]);
                    assert(out_old[a] <= x);
                    assert(pos < out_old.len());
                    assert(out_old[pos as int] > x);
                    assert(out_old[b - 1] >= out_old[pos as int]);
                } else {
                    assert(pos < a);
                    assert(out@[a] == out_old[a - 1] && out@[b] == out_old[b - 1]);
                }
            }
            assert(v@.take(i + 1).drop_last() =~= v@.take(i as int));
            assert(v@.take(i + 1) =~= v@.take(i as int).push(x));
        }
        i = i + 1;
    }
    proof {
        assert(v@.take(v@.len() as int) =~= v@);
    }
    out
}

/// Counts the flight passes in a sorted time list: starts at one and
/// adds one for every adjacent gap exceeding `threshold`.
pub fn count_clusters(times: &Vec<i64>, threshold: i64) -> (n: u64)
    requires
        sorted(times@),
    ensures
        n == spec_clusters(times@, threshold as int),
        n <= times@.len(),
{
    if times.len() == 0 {
        return 0;
    }
    let mut n: u64 = 1;
    let mut j: usize = 1;
    proof {
        assert(times@.take(1).len() == 1);
    }
    while j < times.len()
        invariant
            sorted(times@),
            1 <= j <= times@.len(),
            n == spec_clusters(times@.take(j as int), threshold as int),
            n <= j,
        decreases times@.len() - j,
    {
        let d: i128 = times[j] as i128 - times[j - 1] as i128;
        proof {
            assert(times@.take(j + 1).drop_last() =~= times@.take(j as int));
            assert(times@.take(j + 1)[j as int] == times@[j as int]);
            assert(times@.take(j + 1)[j - 1] == times@[j - 1]);
        }
        if d > threshold as i128 {
            n = n + 1;
        }
        j = j + 1;
    }
    proof {
        assert(times@.take(times@.len() as int) =~= times@);
    }
    n
}

// ---------------------------------------------------------------------
// Clustering laws.
// ---------------------------------------------------------------------

pub proof fn lemma_no_gaps(s: Seq<i64>, thr: int)
    requires
        forall|j: int| 1 <= j < s.len() ==> (#[trigger] s[j]) - s[j - 1] <= thr,
    ensures
        spec_gaps(s, thr) == 0,
    decreases s.len(),
{
    if s.len() > 1 {
        assert(forall|j: int|
            1 <= j < s.drop_last().len() ==> (#[trigger] s.drop_last()[j]) - s.drop_last()[j - 1]
                <= thr);
        lemma_no_gaps(s.drop_last(), thr);
    }
}

/// Single-flightline law: a non-empty time list whose adjacent sorted
/// gaps all stay within the threshold counts exactly one flight pass,
/// so every covered cell of a single flightline reads 1.
pub proof fn lemma_single_cluster(s: Seq<i64>, thr: int)
    requires
        s.len() >= 1,
        forall|j: int| 1 <= j < s.len() ==> (#[trigger] s[j]) - s[j - 1] <= thr,
    ensures
        spec_clusters(s, thr) == 1,
{
    lemma_no_gaps(s, thr);
}

pub proof fn lemma_gaps_concat(a: Seq<i64>, b: Seq<i64>, thr: int)
    requires
        a.len() >= 1,
        b.len() >= 1,
    ensures
        spec_gaps(a + b, thr) == spec_gaps(a, thr) + spec_gaps(b, thr) + if b[0] - a.last() > thr {
            1int
        } else {
            0int
        },
    decreases b.len(),
{
    if b.len() == 1 {
        assert((a + b).drop_last() =~= a);
        assert((a + b).last() == b[0]);
        assert((a + b)[a.len() - 1] == a.last());
    } else {
        assert((a + b).drop_last() =~= a + b.drop_last());
        lemma_gaps_concat(a, b.drop_last(), thr);
        assert((a + b).last() == b.last());
        assert((a + b)[a.len() + b.len() - 2] == b[b.len() - 2]);
        assert(b.drop_last()[0] == b[0]);
        assert(b.drop_last().last() == b[b.len() - 2]);
    }
}

/// Two-pass law: two runs of times, each within the threshold
/// internally, separated by more than the threshold, count exactly two
/// flight passes — a replicated flightline shifted by more than the
/// threshold doubles every covered cell.
pub proof fn lemma_two_clusters(a: Seq<i64>, b: Seq<i64>, thr: int)
    requires
        a.len() >= 1,
        b.len() >= 1,
        forall|j: int| 1 <= j < a.len() ==> (#[trigger] a[j]) - a[j - 1] <= thr,
        forall|j: int| 1 <= j < b.len() ==> (#[trigger] b[j]) - b[j - 1] <= thr,
        b[0] - a.last() > thr,
    ensures
        spec_clusters(a + b, thr) == 2,
{
    lemma_gaps_concat(a, b, thr);
    lemma_no_gaps(a, thr);
    lemma_no_gaps(b, thr);
}

// ---------------------------------------------------------------------
// Grid layout.
// ---------------------------------------------------------------------

/// Ceiling division for non-negative spans.
pub open spec fn spec_ceil_div(a: int, b: int) -> int {
    a / b + if a % b == 0 {
        0int
    } else {
        1int
    }
}

/// Grid extents from the point cloud's header bounds: `rows =
/// ceil((north - min_y) / res)`, `columns = ceil((max_x - west) / res)`.
pub fn grid_dims(north: i64, min_y: i64, max_x: i64, west: i64, res: i64) -> (dims: (
    usize,
    usize,
))
    requires
        1 <= res,
        min_y <= north,
        west <= max_x,
        coord_ok(north as int) && coord_ok(min_y as int),
        coord_ok(max_x as int) && coord_ok(west as int),
        spec_ceil_div(north - min_y, res as int) <= usize::MAX,
        spec_ceil_div(max_x - west, res as int) <= usize::MAX,
    ensures
        dims.0 == spec_ceil_div(north - min_y, res as int),
        dims.1 == spec_ceil_div(max_x - west, res as int),
{
    let rows128: i128 = ceil_div_i128(north as i128 - min_y as i128, res as i128);
    let cols128: i128 = ceil_div_i128(max_x as i128 - west as i128, res as i128);
    (rows128 as usize, cols128 as usize)
}

// ---------------------------------------------------------------------
// Per-cell flightline count.
// ---------------------------------------------------------------------

/// The point lies inside the square footprint of side `res` around the
/// cell centre: `|d| <= res/2` per axis, compared exactly as
/// `4*d^2 <= res^2`.
pub open spec fn in_square(e: IndexEntry, cx: int, cy: int, res: int) -> bool {
    4 * (e.x - cx) * (e.x - cx) <= res * res && 4 * (e.y - cy) * (e.y - cy) <= res * res
}

/// Clamp to the `i64` range (a cluster count never reaches it in
/// practice; the clamp keeps the function total).
pub open spec fn cap_i64(n: int) -> int {
    if n > i64::MAX {
        i64::MAX as int
    } else {
        n
    }
}

/// What the value of one output cell must be, given the stored entries
/// `ms`, the GPS-time table and the cell's centre: nodata exactly when
/// no stored point falls in the cell's square footprint; otherwise the
/// temporal-gap cluster count of the times of exactly those points.
/// The candidate order is unspecified, so the witnesses are pinned up
/// to permutation: `cands` is the set of in-square entries and `st`
/// the ascending arrangement of their times.
/// One admissible witness pair for a cell value: `cands` is the set
/// of stored in-square entries (each once, in some order) and `st`
/// the ascending arrangement of their times.
pub open spec fn cell_witness(
    ms: Multiset<IndexEntry>,
    times: Seq<i64>,
    cx: int,
    cy: int,
    res: int,
    thr: int,
    val: i64,
    cands: Seq<IndexEntry>,
    st: Seq<i64>,
) -> bool {
    &&& cands.no_duplicates()
    &&& sorted(st)
    &&& forall|e: IndexEntry|
        #[trigger] cands.contains(e) <==> (ms.contains(e) && in_square(e, cx, cy, res))
    &&& st.to_multiset() == cands.map_values(|e: IndexEntry| times[e.id as int]).to_multiset()
    &&& val as int == cap_i64(spec_clusters(st, thr))
}

pub open spec fn overlap_cell_ok(
    ms: Multiset<IndexEntry>,
    times: Seq<i64>,
    cx: int,
    cy: int,
    res: int,
    thr: int,
    val: i64,
) -> bool {
    &&& ((val == LFO_NODATA) <==> (forall|e: IndexEntry|
        ms.contains(e) ==> !(#[trigger] in_square(e, cx, cy, res))))
    &&& (val != LFO_NODATA ==> val >= 1)
    &&& (val != LFO_NODATA ==> exists|cands: Seq<IndexEntry>, st: Seq<i64>|
        #[trigger] cell_witness(ms, times, cx, cy, res, thr, val, cands, st))
}

/// Mapping a rearrangement rearranges the images: two sequences with
/// one multiset of elements map to one multiset of values.
proof fn lemma_map_multiset(s1: Seq<IndexEntry>, s2: Seq<IndexEntry>, f: spec_fn(IndexEntry) -> i64)
    requires
        s1.to_multiset() == s2.to_multiset(),
    ensures
        s1.map_values(f).to_multiset() == s2.map_values(f).to_multiset(),
    decreases s1.len(),
{
    vstd::seq_lib::to_multiset_len(s1);
    vstd::seq_lib::to_multiset_len(s2);
    if s1.len() == 0 {
        assert(s1.map_values(f) =~= s2.map_values(f));
    } else {
        let x = s1.last();
        assert(s1.drop_last().push(x) =~= s1);
        assert(s2.to_multiset().contains(x));
        let i = choose|i: int| 0 <= i < s2.len() && s2[i] == x;
        vstd::seq_lib::to_multiset_remove(s2, i);
        let s1r = s1.drop_last();
        let s2r = s2.remove(i);
        assert(s1r.to_multiset() =~= s2r.to_multiset()) by {
            assert(s1r.push(x).to_multiset() == s1r.to_multiset().insert(x));
        }
        lemma_map_multiset(s1r, s2r, f);
        assert(s1.map_values(f) =~= s1r.map_values(f).push(f(x)));
        assert(s2r.map_values(f) =~= s2.map_values(f).remove(i));
        vstd::seq_lib::to_multiset_remove(s2.map_values(f), i);
        assert(s2.map_values(f)[i] == f(x));
        assert(s1.map_values(f).to_multiset() =~= s2.map_values(f).to_multiset()) by {
            assert(s1r.map_values(f).push(f(x)).to_multiset() == s1r.map_values(
                f,
            ).to_multiset().insert(f(x)));
        }
    }
}

/// The cell value is a function of the stored entries, the time table
/// and the cell alone: any two values that `overlap_cell_ok` allows
/// for one cell are equal, although the candidate order is
/// unspecified.
pub proof fn lemma_overlap_cell_value_unique(
    ms: Multiset<IndexEntry>,
    times: Seq<i64>,
    cx: int,
    cy: int,
    res: int,
    thr: int,
    v1: i64,
    v2: i64,
)
    requires
        overlap_cell_ok(ms, times, cx, cy, res, thr, v1),
        overlap_cell_ok(ms, times, cx, cy, res, thr, v2),
    ensures
        v1 == v2,
{
    if v1 == LFO_NODATA || v2 == LFO_NODATA {
        assert(v1 == LFO_NODATA && v2 == LFO_NODATA);
    } else {
        let tf = |e: IndexEntry| times[e.id as int];
        let (c1, st1) = choose|cands: Seq<IndexEntry>, st: Seq<i64>|
            #[trigger] cell_witness(ms, times, cx, cy, res, thr, v1, cands, st);
        let (c2, st2) = choose|cands: Seq<IndexEntry>, st: Seq<i64>|
            #[trigger] cell_witness(ms, times, cx, cy, res, thr, v2, cands, st);
        c1.lemma_multiset_has_no_duplicates();
        c2.lemma_multiset_has_no_duplicates();
        assert(c1.to_multiset() =~= c2.to_multiset()) by {
            assert forall|x: IndexEntry|
                c1.to_multiset().count(x) == c2.to_multiset().count(x) by {
                if c1.contains(x) {
                    assert(ms.contains(x) && in_square(x, cx, cy, res));
                    assert(c2.contains(x));
                    assert(c1.to_multiset().count(x) == 1 && c2.to_multiset().count(x) == 1);
                } else {
                    if c2.contains(x) {
                        assert(ms.contains(x) && in_square(x, cx, cy, res));
                        assert(c1.contains(x));
                    }
                    assert(c1.to_multiset().count(x) == 0 && c2.to_multiset().count(x) == 0);
                }
            }
        }
        lemma_map_multiset(c1, c2, tf);
        assert(c1.map_values(tf) == c1.map_values(|e: IndexEntry| times[e.id as int]));
        assert(c2.map_values(tf) == c2.map_values(|e: IndexEntry| times[e.id as int]));
        let leq = |a: i64, b: i64| a <= b;
        assert(vstd::relations::total_ordering(leq));
        assert(vstd::relations::sorted_by(st1, leq));
        assert(vstd::relations::sorted_by(st2, leq));
        vstd::seq_lib::lemma_sorted_unique(st1, st2, leq);
        assert(st1 == st2);
    }
}

/// A point inside the square footprint is within the search radius.
pub proof fn lemma_square_in_circle(e: IndexEntry, cx: int, cy: int, res: int)
    requires
        1 <= res,
        in_square(e, cx, cy, res),
    ensures
        dist2(e.x as int, e.y as int, cx, cy) <= res * res,
{
    assert((e.x - cx) * (e.x - cx) + (e.y - cy) * (e.y - cy) <= res * res) by (nonlinear_arith)
        requires
            4 * (e.x - cx) * (e.x - cx) <= res * res,
            4 * (e.y - cy) * (e.y - cy) <= res * res,
    ;
}

/// The flightline count of one cell: query the index at the cell
/// centre, keep the candidates inside the square footprint, sort their
/// GPS times and count temporal-gap clusters; nodata when no point
/// falls in the cell.
#[verifier::loop_isolation(false)]
pub fn flightline_cell(
    idx: &FixedRadiusIndex,
    times: &Vec<i64>,
    cx: i64,
    cy: i64,
    threshold: i64,
) -> (val: i64)
    requires
        idx.wf(),
        coord_ok(cx as int),
        coord_ok(cy as int),
        forall|e: IndexEntry| idx.entries().contains(e) ==> (#[trigger] e.id) < times@.len(),
    ensures
        overlap_cell_ok(
            idx.entries(),
            times@,
            cx as int,
            cy as int,
            idx.radius_spec(),
            threshold as int,
            val,
        ),
{
    proof {
        idx.lemma_wf_radius();
    }
    let rr = idx.radius_value();
    let cands = idx.search(cx, cy);
    proof {
        assert((rr as int) * (rr as int) <= 0x4000_0000_0000_0000_0000_0000_0000_0000int)
            by (nonlinear_arith)
            requires
                1 <= rr as int <= 0x2000_0000_0000_0000int,
        ;
    }
    let r2: i128 = rr as i128 * rr as i128;
    let mut ts: Vec<i64> = Vec::new();
    let ghost mut kept: Seq<IndexEntry> = Seq::empty();
    let mut j: usize = 0;
    while j < cands.len()
        invariant
            j <= cands@.len(),
            kept.no_duplicates(),
            forall|m: int| 0 <= m < kept.len() ==> cands@.take(j as int).contains(#[trigger] kept[m]),
            forall|e: IndexEntry|
                #[trigger] kept.contains(e) <==> (cands@.take(j as int).contains(e) && in_square(
                    e,
                    cx as int,
                    cy as int,
                    rr as int,
                )),
            ts@ == kept.map_values(|e: IndexEntry| times@[e.id as int]),
        decreases cands@.len() - j,
    {
        let e = cands[j];
        proof {
            idx.lemma_entries_coord_ok(e);
        }
        let dx: i128 = e.x as i128 - cx as i128;
        let dy: i128 = e.y as i128 - cy as i128;
        proof {
            assert((dx as int) * (dx as int) <= 0x1000_0000_0000_0000_0000_0000_0000_0000int && (
            dy as int) * (dy as int) <= 0x1000_0000_0000_0000_0000_0000_0000_0000int && (dx as int)
                * (dx as int) >= 0 && (dy as int) * (dy as int) >= 0) by (nonlinear_arith)
                requires
                    -0x4000_0000_0000_0000int <= dx as int <= 0x4000_0000_0000_0000int,
                    -0x4000_0000_0000_0000int <= dy as int <= 0x4000_0000_0000_0000int,
            ;
            let dxi = e.x as int - cx as int;
            let dyi = e.y as int - cy as int;
            assert(4 * dxi * dxi == 4 * (dxi * dxi)) by (nonlinear_arith);
            assert(4 * dyi * dyi == 4 * (dyi * dyi)) by (nonlinear_arith);
        }
        let sqx: i128 = dx * dx;
        let sqy: i128 = dy * dy;
        let ghost kept_old = kept;
        let ghost ts_old = ts@;
        if 4 * sqx <= r2 && 4 * sqy <= r2 {
            proof {
                assert(in_square(e, cx as int, cy as int, rr as int));
                if kept.contains(e) {
                    let m = choose|m: int| 0 <= m < kept.len() && kept[m] == e;
                    assert(cands@.take(j as int).contains(e));
                    let j2 = choose|j2: int| 0 <= j2 < j && cands@.take(j as int)[j2] == e;
                    assert(cands@[j2] == cands@[j as int]);
                    assert(false);
                }
                kept = kept.push(e);
            }
            let t = times[e.id];
            ts.push(t);
            proof {
                assert(ts@ =~= kept.map_values(|e2: IndexEntry| times@[e2.id as int]));
            }
        } else {
            proof {
                assert(!in_square(e, cx as int, cy as int, rr as int));
            }
        }
        proof {
            let ghost pushed = in_square(e, cx as int, cy as int, rr as int);
            if pushed {
                assert(kept == kept_old.push(e));
                assert(!kept_old.contains(e));
                assert forall|m1: int, m2: int| 0 <= m1 < m2 < kept.len() implies kept[m1]
                    != kept[m2] by {
                    if m2 == kept.len() - 1 {
                        assert(kept[m1] == kept_old[m1]);
                        if kept_old[m1] == e {
                            assert(kept_old.contains(e));
                        }
                    } else {
                        assert(kept[m1] == kept_old[m1] && kept[m2] == kept_old[m2]);
                    }
                }
            }
            assert forall|e2: IndexEntry| #[trigger] kept.contains(e2) <==> (cands@.take(
                j + 1,
            ).contains(e2) && in_square(e2, cx as int, cy as int, rr as int)) by {
                assert(cands@.take(j + 1)[j as int] == e);
                if pushed {
                    assert(kept[kept.len() - 1] == e);
                    assert(kept.contains(e));
                }
                if cands@.take(j + 1).contains(e2) && e2 != e {
                    let j2 = choose|j2: int|
                        0 <= j2 < j + 1 && #[trigger] cands@.take(j + 1)[j2] == e2;
                    assert(cands@.take(j as int)[j2] == e2);
                }
                if cands@.take(j as int).contains(e2) {
                    let j2 = choose|j2: int|
                        0 <= j2 < j && #[trigger] cands@.take(j as int)[j2] == e2;
                    assert(cands@.take(j + 1)[j2] == e2);
                }
                if kept_old.contains(e2) {
                    let m = choose|m: int| 0 <= m < kept_old.len() && #[trigger] kept_old[m] == e2;
                    assert(kept[m] == e2);
                    assert(kept.contains(e2));
                }
                if kept.contains(e2) {
                    let m = choose|m: int| 0 <= m < kept.len() && #[trigger] kept[m] == e2;
                    if pushed {
                        if m < kept.len() - 1 {
                            assert(kept_old[m] == e2);
                            assert(kept_old.contains(e2));
                        } else {
                            assert(e2 == e);
                        }
                    } else {
                        assert(kept_old.contains(e2));
                    }
                }
            }
            assert forall|m: int| 0 <= m < kept.len() implies cands@.take(j + 1).contains(
                #[trigger] kept[m],
            ) by {
                if m < kept_old.len() {
                    assert(kept[m] == kept_old[m]);
                    assert(cands@.take(j as int).contains(kept_old[m]));
                    let j2 = choose|j2: int|
                        0 <= j2 < j && #[trigger] cands@.take(j as int)[j2] == kept_old[m];
                    assert(cands@.take(j + 1)[j2] == kept[m]);
                } else {
                    assert(cands@.take(j + 1)[j as int] == e);
                }
            }
        }
        j = j + 1;
    }
    proof {
        assert(cands@.take(cands@.len() as int) =~= cands@);
        assert forall|e: IndexEntry| #[trigger] kept.contains(e) <==> (idx.entries().contains(e)
            && in_square(e, cx as int, cy as int, idx.radius_spec())) by {
            if idx.entries().contains(e) && in_square(e, cx as int, cy as int, idx.radius_spec()) {
                lemma_square_in_circle(e, cx as int, cy as int, idx.radius_spec());
                assert(cands@.contains(e));
            }
        }
    }
    if ts.len() == 0 {
        proof {
            assert forall|e: IndexEntry| idx.entries().contains(e) implies !(#[trigger] in_square(
                e,
                cx as int,
                cy as int,
                idx.radius_spec(),
            )) by {
                if in_square(e, cx as int, cy as int, idx.radius_spec()) {
                    assert(kept.contains(e));
                    let m = choose|m: int| 0 <= m < kept.len() && kept[m] == e;
                    assert(kept.map_values(|e2: IndexEntry| times@[e2.id as int]).len() == 0);
                }
            }
        }
        LFO_NODATA
    } else {
        let sorted_ts = sort_times(&ts);
        let n = count_clusters(&sorted_ts, threshold);
        let val: i64 = if n > 0x7fff_ffff_ffff_ffffu64 {
            i64::MAX
        } else {
            n as i64
        };
        proof {
            lemma_gaps_bounds(sorted_ts@, threshold as int);
            assert(val >= 1);
            assert(val != LFO_NODATA);
            let tf = |e2: IndexEntry| times@[e2.id as int];
            assert(kept.contains(kept[0]));
            assert(!(forall|e: IndexEntry|
                idx.entries().contains(e) ==> !(#[trigger] in_square(
                    e,
                    cx as int,
                    cy as int,
                    idx.radius_spec(),
                ))));
            assert(sorted_ts@.to_multiset() == kept.map_values(tf).to_multiset());
            assert(cell_witness(
                idx.entries(),
                times@,
                cx as int,
                cy as int,
                idx.radius_spec(),
                threshold as int,
                val,
                kept,
                sorted_ts@,
            ));
        }
        val
    }
}

// ---------------------------------------------------------------------
// Whole-tool driver.
// ---------------------------------------------------------------------

/// The index entries the build pass stores: one per point, with the
/// point's position in the record array as its payload id.
pub open spec fn entry_seq(ps: Seq<LfoPoint>) -> Seq<IndexEntry> {
    Seq::new(ps.len(), |i: int| IndexEntry { x: ps[i].x, y: ps[i].y, id: i as usize })
}

pub open spec fn points_entries(ps: Seq<LfoPoint>) -> Multiset<IndexEntry> {
    entry_seq(ps).to_multiset()
}

/// The GPS-time table, parallel to the point records.
pub open spec fn times_of(ps: Seq<LfoPoint>) -> Seq<i64> {
    ps.map_values(|p: LfoPoint| p.time)
}

/// The whole flightline-overlap computation: reject point formats
/// without GPS time, index every point, lay the grid over the header
/// bounds, and count the flight passes covering each cell.  `half` is
/// the fixed centre offset the tool adds in coordinate units (one half
/// unit, whatever the resolution — kept exactly as the tool behaves).
#[verifier::loop_isolation(false)]
pub fn flightline_overlap(
    points: &Vec<LfoPoint>,
    point_format: u8,
    west: i64,
    north: i64,
    min_y: i64,
    max_x: i64,
    res: i64,
    threshold: i64,
    half: i64,
) -> (out: Result<Grid2D, CoreError>)
    requires
        1 <= res <= RADIUS_LIMIT,
        min_y <= north,
        west <= max_x,
        coord_ok(west as int) && coord_ok(north as int),
        coord_ok(min_y as int) && coord_ok(max_x as int),
        0 <= half <= res,
        spec_ceil_div(north - min_y, res as int) < crate::grid::MAX_EXTENT,
        spec_ceil_div(max_x - west, res as int) < crate::grid::MAX_EXTENT,
        spec_ceil_div(north - min_y, res as int) <= usize::MAX,
        spec_ceil_div(max_x - west, res as int) <= usize::MAX,
        west + spec_ceil_div(max_x - west, res as int) * res + res <= COORD_LIMIT,
        north - spec_ceil_div(north - min_y, res as int) * res - res >= -(COORD_LIMIT as int),
        forall|i: int|
            0 <= i < points@.len() ==> coord_ok((#[trigger] points@[i]).x as int) && coord_ok(
                points@[i].y as int,
            ),
    ensures
        out is Ok <==> format_has_time(point_format),
        out is Err ==> out == Result::<Grid2D, CoreError>::Err(CoreError::InvalidInput),
        out matches Ok(g) ==> {
            &&& g.wf()
            &&& g.rows() == spec_ceil_div(north - min_y, res as int)
            &&& g.cols() == spec_ceil_div(max_x - west, res as int)
            &&& g.nodata_in() == LFO_NODATA
            &&& g.nodata_out() == LFO_NODATA
            &&& forall|row: int, col: int|
                0 <= row < g.rows() && 0 <= col < g.cols() ==> overlap_cell_ok(
                    points_entries(points@),
                    times_of(points@),
                    west + col * res + half,
                    north - row * res - half,
                    res as int,
                    threshold as int,
                    #[trigger] g.cell(row, col),
                )
        },
{
    check_point_format(point_format)?;
    let n_points = points.len();
    let mut idx = FixedRadiusIndex::new(res);
    let mut times: Vec<i64> = Vec::new();
    let mut i: usize = 0;
    proof {
        assert(entry_seq(points@.take(0)) =~= Seq::<IndexEntry>::empty());
        assert(times_of(points@.take(0)) =~= Seq::<i64>::empty());
    }
    while i < n_points
        invariant
            i <= n_points,
            idx.wf(),
            idx.radius_spec() == res,
            idx.entries() == points_entries(points@.take(i as int)),
            forall|e: IndexEntry| idx.entries().contains(e) ==> (#[trigger] e.id) < i,
            times@ == times_of(points@.take(i as int)),
        decreases n_points - i,
    {
        let p = points[i];
        let e = IndexEntry { x: p.x, y: p.y, id: i };
        proof {
            if idx.entries().contains(e) {
                assert(e.id < i);
                assert(false);
            }
        }
        idx.insert(p.x, p.y, i);
        times.push(p.time);
        proof {
            assert(entry_seq(points@.take(i + 1)) =~= entry_seq(points@.take(i as int)).push(e));
            assert(points_entries(points@.take(i + 1)) =~= points_entries(
                points@.take(i as int),
            ).insert(e));
            assert(times_of(points@.take(i + 1)) =~= times_of(points@.take(i as int)).push(
                p.time,
            ));
            assert forall|e2: IndexEntry| idx.entries().contains(e2) implies (#[trigger] e2.id) < i
                + 1 by {
                if e2 != e {
                    assert(points_entries(points@.take(i as int)).contains(e2));
                }
            }
        }
        i = i + 1;
    }
    proof {
        assert(points@.take(n_points as int) =~= points@);
    }
    let (rows, cols) = grid_dims(north, min_y, max_x, west, res);
    let mut g = Grid2D::new(rows, cols, LFO_NODATA, LFO_NODATA);
    let mut row: usize = 0;
    while row < rows
        invariant
            row <= rows,
            idx.wf(),
            idx.radius_spec() == res,
            idx.entries() == points_entries(points@),
            forall|e: IndexEntry| idx.entries().contains(e) ==> (#[trigger] e.id) < times@.len(),
            times@ == times_of(points@),
            g.wf(),
            g.rows() == rows,
            g.cols() == cols,
            g.nodata_in() == LFO_NODATA,
            g.nodata_out() == LFO_NODATA,
            forall|r2: int, c2: int|
                0 <= r2 < row && 0 <= c2 < cols ==> overlap_cell_ok(
                    points_entries(points@),
                    times_of(points@),
                    west + c2 * res + half,
                    north - r2 * res - half,
                    res as int,
                    threshold as int,
                    #[trigger] g.cell(r2, c2),
                ),
        decreases rows - row,
    {
        let mut col: usize = 0;
        while col < cols
            invariant
                row < rows,
                col <= cols,
                idx.wf(),
                idx.radius_spec() == res,
                idx.entries() == points_entries(points@),
                forall|e: IndexEntry|
                    idx.entries().contains(e) ==> (#[trigger] e.id) < times@.len(),
                times@ == times_of(points@),
                g.wf(),
                g.rows() == rows,
                g.cols() == cols,
                g.nodata_in() == LFO_NODATA,
                g.nodata_out() == LFO_NODATA,
                forall|r2: int, c2: int|
                    0 <= r2 < row && 0 <= c2 < cols ==> overlap_cell_ok(
                        points_entries(points@),
                        times_of(points@),
                        west + c2 * res + half,
                        north - r2 * res - half,
                        res as int,
                        threshold as int,
                        #[trigger] g.cell(r2, c2),
                    ),
                forall|c2: int|
                    0 <= c2 < col ==> overlap_cell_ok(
                        points_entries(points@),
                        times_of(points@),
                        west + c2 * res + half,
                        north - row as int * res - half,
                        res as int,
                        threshold as int,
                        #[trigger] g.cell(row as int, c2),
                    ),
            decreases cols - col,
        {
            proof {
                assert((col as int) * res <= (cols as int) * res && 0 <= (col as int) * res)
                    by (nonlinear_arith)
                    requires
                        0 <= col as int <= cols as int,
                        1 <= res,
                ;
                assert((row as int) * res <= (rows as int) * res && 0 <= (row as int) * res)
                    by (nonlinear_arith)
                    requires
                        0 <= row as int <= rows as int,
                        1 <= res,
                ;
            }
            let cx128: i128 = west as i128 + col as i128 * res as i128 + half as i128;
            let cy128: i128 = north as i128 - row as i128 * res as i128 - half as i128;
            let cx: i64 = cx128 as i64;
            let cy: i64 = cy128 as i64;
            let val = flightline_cell(&idx, &times, cx, cy, threshold);
            let ghost g_prev = g;
            let set_res = g.set(row, col, val);
            proof {
                assert(set_res is Ok);
                assert forall|r2: int, c2: int|
                    0 <= r2 < row && 0 <= c2 < cols implies overlap_cell_ok(
                    points_entries(points@),
                    times_of(points@),
                    west + c2 * res + half,
                    north - r2 * res - half,
                    res as int,
                    threshold as int,
                    #[trigger] g.cell(r2, c2),
                ) by {
                    assert(g.cell(r2, c2) == g_prev.cell(r2, c2));
                }
                assert forall|c2: int| 0 <= c2 < col + 1 implies overlap_cell_ok(
                    points_entries(points@),
                    times_of(points@),
                    west + c2 * res + half,
                    north - row as int * res - half,
                    res as int,
                    threshold as int,
                    #[trigger] g.cell(row as int, c2),
                ) by {
                    if c2 < col {
                        assert(g.cell(row as int, c2) == g_prev.cell(row as int, c2));
                    } else {
                        assert(g.cell(row as int, c2) == val);
                        assert(cx as int == west + c2 * res + half);
                        assert(cy as int == north - row as int * res - half);
                    }
                }
            }
            col = col + 1;
        }
        row = row + 1;
    }
    Ok(g)
}

fn ceil_div_i128(a: i128, b: i128) -> (q: i128)
    requires
        0 <= a <= 0x8000_0000_0000_0000_0000_0000i128,
        1 <= b,
    ensures
        q == spec_ceil_div(a as int, b as int),
        0 <= q <= a,
{
    let d = a / b;
    let m = a % b;
    proof {
        vstd::arithmetic::div_mod::lemma_fundamental_div_mod(a as int, b as int);
        vstd::arithmetic::div_mod::lemma_div_is_ordered_by_denominator(a as int, 1, b as int);
        vstd::arithmetic::div_mod::lemma_div_basics(a as int);
        if a as int % (b as int) != 0 {
            assert((a as int) / (b as int) < a as int) by (nonlinear_arith)
                requires
                    a as int == (b as int) * ((a as int) / (b as int)) + (a as int) % (b as int),
                    0 < (a as int) % (b as int) < b as int,
                    1 <= b as int,
                    0 <= a as int,
            ;
        }
    }
    if m == 0 {
        d
    } else {
        d + 1
    }
}

} // verus!
