//! Fixed-radius spatial index: a 2D spatial hash keyed on a bucket size
//! equal to the search radius.
//!
//! Coordinates are scaled integers (the caller fixes one fixed-point
//! scale for coordinates and radius alike).  Each entry is stored in
//! bucket `(floor(x/r), floor(y/r))`; a query scans the nine buckets
//! around the query point, which suffices because any entry within
//! distance `r` of the query lies in one of them.

use vstd::multiset::Multiset;
use vstd::prelude::*;

verus! {

broadcast use
    vstd::multiset::group_multiset_axioms,
    vstd::seq_lib::to_multiset_build,
    vstd::seq_lib::to_multiset_contains,
;

/// Largest accepted scaled coordinate magnitude; keeps squared
/// distances and neighbouring bucket indices inside the integer types.
pub const COORD_LIMIT: i64 = 0x2000_0000_0000_0000;

/// Largest accepted scaled radius (bucket size).
pub const RADIUS_LIMIT: i64 = 0x2000_0000_0000_0000;

/// One stored point: its scaled coordinates and the caller's payload
/// id (for the overlap tool, the index into the point record array).
#[derive(Clone, Copy, PartialEq, Eq, Structural, Debug)]
pub struct IndexEntry {
    pub x: i64,
    pub y: i64,
    pub id: usize,
}

pub open spec fn coord_ok(v: int) -> bool {
    -COORD_LIMIT <= v <= COORD_LIMIT
}

/// The bucket index of a scaled coordinate: floor division by the
/// radius (`/` on `int` is Euclidean, hence floor for positive radius).
pub open spec fn bucket_coord(v: int, r: int) -> int {
    v / r
}

/// Squared Euclidean distance between two scaled points.
pub open spec fn dist2(x1: int, y1: int, x2: int, y2: int) -> int {
    (x1 - x2) * (x1 - x2) + (y1 - y2) * (y1 - y2)
}

/// Floor division of a scaled coordinate by a positive bucket size.
fn floor_div(a: i64, b: i64) -> (q: i64)
    requires
        1 <= b <= RADIUS_LIMIT,
        coord_ok(a as int),
    ensures
        q == a as int / b as int,
        -(COORD_LIMIT as int) - 1 <= q <= COORD_LIMIT as int,
{
    if a >= 0 {
        proof {
            vstd::arithmetic::div_mod::lemma_div_is_ordered_by_denominator(a as int, 1, b as int);
            vstd::arithmetic::div_mod::lemma_div_basics(a as int);
        }
        a / b
    } else {
        let na = -a;
        let qq = (na + b - 1) / b;
        proof {
            let nai = na as int;
            let bi = b as int;
            vstd::arithmetic::div_mod::lemma_fundamental_div_mod(nai, bi);
            let qd = nai / bi;
            let rd = nai % bi;
            if rd == 0 {
                assert(nai + bi - 1 == qd * bi + (bi - 1)) by (nonlinear_arith)
                    requires
                        nai == bi * qd + rd,
                        rd == 0,
                ;
                vstd::arithmetic::div_mod::lemma_fundamental_div_mod_converse(
                    nai + bi - 1,
                    bi,
                    qd,
                    bi - 1,
                );
                assert(-nai == (-qd) * bi + 0) by (nonlinear_arith)
                    requires
                        nai == bi * qd + rd,
                        rd == 0,
                ;
                vstd::arithmetic::div_mod::lemma_fundamental_div_mod_converse(
                    -nai,
                    bi,
                    -qd,
                    0,
                );
            } else {
                assert(nai + bi - 1 == (qd + 1) * bi + (rd - 1)) by (nonlinear_arith)
                    requires
                        nai == bi * qd + rd,
                ;
                vstd::arithmetic::div_mod::lemma_fundamental_div_mod_converse(
                    nai + bi - 1,
                    bi,
                    qd + 1,
                    rd - 1,
                );
                assert(-nai == (-qd - 1) * bi + (bi - rd)) by (nonlinear_arith)
                    requires
                        nai == bi * qd + rd,
                ;
                vstd::arithmetic::div_mod::lemma_fundamental_div_mod_converse(
                    -nai,
                    bi,
                    -qd - 1,
                    bi - rd,
                );
            }
            vstd::arithmetic::div_mod::lemma_div_is_ordered_by_denominator(nai, 1, bi);
            vstd::arithmetic::div_mod::lemma_div_basics(nai);
        }
        -qq
    }
}

/// Geometric core of the nine-bucket scan: a point within distance `r`
/// of the query lies in a bucket at most one step away on each axis.
pub proof fn lemma_neighbor_bucket(px: int, qx: int, r: int)
    requires
        1 <= r,
        (px - qx) * (px - qx) <= r * r,
    ensures
        bucket_coord(qx, r) - 1 <= bucket_coord(px, r) <= bucket_coord(qx, r) + 1,
{
    assert(qx - r <= px <= qx + r) by (nonlinear_arith)
        requires
            (px - qx) * (px - qx) <= r * r,
            r >= 1,
    ;
    vstd::arithmetic::div_mod::lemma_div_is_ordered(qx - r, px, r);
    vstd::arithmetic::div_mod::lemma_div_is_ordered(px, qx + r, r);
    vstd::arithmetic::div_mod::lemma_fundamental_div_mod(qx, r);
    let qd = qx / r;
    let rd = qx % r;
    assert(qx + r == (qd + 1) * r + rd) by (nonlinear_arith)
        requires
            qx == r * qd + rd,
    ;
    vstd::arithmetic::div_mod::lemma_fundamental_div_mod_converse(qx + r, r, qd + 1, rd);
    assert(qx - r == (qd - 1) * r + rd) by (nonlinear_arith)
        requires
            qx == r * qd + rd,
    ;
    vstd::arithmetic::div_mod::lemma_fundamental_div_mod_converse(qx - r, r, qd - 1, rd);
}

/// Entry within the query radius.
spec fn within_q(e: IndexEntry, qx: int, qy: int, ri: int) -> bool {
    dist2(e.x as int, e.y as int, qx, qy) <= ri * ri
}

/// Position of an entry's bucket in the 3x3 scan order around the
/// query's bucket.
spec fn slot_of(e: IndexEntry, ri: int, qbx: int, qby: int) -> int {
    (bucket_coord(e.x as int, ri) - qbx + 1) * 3 + (bucket_coord(e.y as int, ri) - qby + 1)
}

/// An entry within the radius sits in one of the nine scanned buckets,
/// and its slot determines its bucket coordinates.
proof fn lemma_entry_slot(e: IndexEntry, qx: int, qy: int, ri: int, qbx: int, qby: int)
    requires
        1 <= ri,
        within_q(e, qx, qy, ri),
        qbx == bucket_coord(qx, ri),
        qby == bucket_coord(qy, ri),
    ensures
        0 <= slot_of(e, ri, qbx, qby) < 9,
        bucket_coord(e.x as int, ri) == qbx - 1 + slot_of(e, ri, qbx, qby) / 3,
        bucket_coord(e.y as int, ri) == qby - 1 + slot_of(e, ri, qbx, qby) % 3,
{
    let ex = e.x as int;
    let ey = e.y as int;
    assert((ex - qx) * (ex - qx) <= ri * ri && (ey - qy) * (ey - qy) <= ri * ri)
        by (nonlinear_arith)
        requires
            (ex - qx) * (ex - qx) + (ey - qy) * (ey - qy) <= ri * ri,
    ;
    lemma_neighbor_bucket(ex, qx, ri);
    lemma_neighbor_bucket(ey, qy, ri);
    let a = bucket_coord(ex, ri) - qbx + 1;
    let b = bucket_coord(ey, ri) - qby + 1;
    vstd::arithmetic::div_mod::lemma_fundamental_div_mod_converse(a * 3 + b, 3, a, b);
}

struct Bucket {
    bx: i64,
    by: i64,
    items: Vec<IndexEntry>,
}

/// All entries of a bucket have this bucket's coordinates and bounded
/// coordinates, and appear once each.
spec fn bucket_wf(b: Bucket, r: int) -> bool {
    &&& b.items@.no_duplicates()
    &&& forall|k: int|
        0 <= k < b.items@.len() ==> coord_ok((#[trigger] b.items@[k]).x as int) && coord_ok(
            b.items@[k].y as int,
        ) && bucket_coord(b.items@[k].x as int, r) == b.bx && bucket_coord(
            b.items@[k].y as int,
            r,
        ) == b.by
}

spec fn ms_of(bs: Seq<Bucket>) -> Multiset<IndexEntry>
    decreases bs.len(),
{
    if bs.len() == 0 {
        Multiset::empty()
    } else {
        ms_of(bs.drop_last()).add(bs.last().items@.to_multiset())
    }
}

proof fn lemma_ms_bucket(bs: Seq<Bucket>, i: int, e: IndexEntry)
    requires
        0 <= i < bs.len(),
        bs[i].items@.contains(e),
    ensures
        ms_of(bs).count(e) > 0,
    decreases bs.len(),
{
    if i == bs.len() - 1 {
    } else {
        lemma_ms_bucket(bs.drop_last(), i, e);
    }
}

proof fn lemma_ms_to_bucket(bs: Seq<Bucket>, e: IndexEntry)
    requires
        ms_of(bs).count(e) > 0,
    ensures
        exists|i: int| 0 <= i < bs.len() && (#[trigger] bs[i]).items@.contains(e),
    decreases bs.len(),
{
    if bs.len() == 0 {
        assert(ms_of(bs).count(e) == 0);
    } else {
        if bs.last().items@.to_multiset().count(e) > 0 {
            assert(bs.last().items@.contains(e));
            assert(bs[bs.len() - 1].items@.contains(e));
        } else {
            lemma_ms_to_bucket(bs.drop_last(), e);
            let i = choose|i: int|
                0 <= i < bs.drop_last().len() && (#[trigger] bs.drop_last()[i]).items@.contains(e);
            assert(bs[i].items@.contains(e));
        }
    }
}

proof fn lemma_ms_push(bs: Seq<Bucket>, b: Bucket)
    ensures
        ms_of(bs.push(b)) == ms_of(bs).add(b.items@.to_multiset()),
{
    assert(bs.push(b).drop_last() =~= bs);
    assert(bs.push(b).last() == b);
}

proof fn lemma_ms_update_push(bs: Seq<Bucket>, i: int, b2: Bucket, e: IndexEntry)
    requires
        0 <= i < bs.len(),
        b2.items@ == bs[i].items@.push(e),
    ensures
        ms_of(bs.update(i, b2)) =~= ms_of(bs).insert(e),
    decreases bs.len(),
{
    if i == bs.len() - 1 {
        assert(bs.update(i, b2).drop_last() =~= bs.drop_last());
        assert(bs.update(i, b2).last() == b2);
        assert(b2.items@.to_multiset() == bs[i].items@.to_multiset().insert(e));
    } else {
        assert(bs.update(i, b2).drop_last() =~= bs.drop_last().update(i, b2));
        assert(bs.update(i, b2).last() == bs.last());
        lemma_ms_update_push(bs.drop_last(), i, b2, e);
    }
}

/// Build-once, read-many spatial hash with bucket size equal to the
/// search radius.
pub struct FixedRadiusIndex {
    radius: i64,
    buckets: Vec<Bucket>,
}

impl FixedRadiusIndex {
    /// The stored entries, as a multiset (queries return survivors in
    /// unspecified order).
    pub closed spec fn entries(self) -> Multiset<IndexEntry> {
        ms_of(self.buckets@)
    }

    pub closed spec fn radius_spec(self) -> int {
        self.radius as int
    }

    pub closed spec fn wf(self) -> bool {
        &&& 1 <= self.radius <= RADIUS_LIMIT
        &&& forall|i: int, j: int|
            0 <= i < j < self.buckets@.len() ==> !((#[trigger] self.buckets@[i]).bx == (
            #[trigger] self.buckets@[j]).bx && self.buckets@[i].by == self.buckets@[j].by)
        &&& forall|i: int|
            0 <= i < self.buckets@.len() ==> bucket_wf(
                #[trigger] self.buckets@[i],
                self.radius as int,
            )
    }

    /// A well-formed index has a positive, bounded bucket size.
    pub proof fn lemma_wf_radius(self)
        requires
            self.wf(),
        ensures
            1 <= self.radius_spec() <= RADIUS_LIMIT,
    {
    }

    /// Every stored entry has bounded coordinates.
    pub proof fn lemma_entries_coord_ok(self, e: IndexEntry)
        requires
            self.wf(),
            self.entries().contains(e),
        ensures
            coord_ok(e.x as int),
            coord_ok(e.y as int),
    {
        lemma_ms_to_bucket(self.buckets@, e);
        let i = choose|i: int|
            0 <= i < self.buckets@.len() && (#[trigger] self.buckets@[i]).items@.contains(e);
        let k = choose|k: int|
            0 <= k < self.buckets@[i].items@.len() && self.buckets@[i].items@[k] == e;
        assert(bucket_wf(self.buckets@[i], self.radius as int));
    }

    /// An empty index with the given bucket size (the search radius).
    pub fn new(radius: i64) -> (idx: FixedRadiusIndex)
        requires
            1 <= radius <= RADIUS_LIMIT,
        ensures
            idx.wf(),
            idx.radius_spec() == radius,
            idx.entries() == Multiset::<IndexEntry>::empty(),
    {
        FixedRadiusIndex { radius, buckets: Vec::new() }
    }

    pub fn radius_value(&self) -> (r: i64)
        ensures
            r == self.radius_spec(),
    {
        self.radius
    }

    fn find_bucket(&self, bx: i64, by: i64) -> (res: Option<usize>)
        ensures
            match res {
                Some(i) => i < self.buckets@.len() && self.buckets@[i as int].bx == bx
                    && self.buckets@[i as int].by == by,
                None => forall|i: int|
                    0 <= i < self.buckets@.len() ==> !((#[trigger] self.buckets@[i]).bx == bx
                        && self.buckets@[i].by == by),
            },
    {
        let n = self.buckets.len();
        let mut i: usize = 0;
        while i < n
            invariant
                n == self.buckets@.len(),
                i <= n,
                forall|k: int|
                    0 <= k < i ==> !((#[trigger] self.buckets@[k]).bx == bx && self.buckets@[k].by
                        == by),
            decreases n - i,
        {
            if self.buckets[i].bx == bx && self.buckets[i].by == by {
                return Some(i);
            }
            i = i + 1;
        }
        None
    }

    /// Stores `(x, y, id)` in its bucket.  Entries are distinguished by
    /// their payload id (the build loop inserts each point once), so
    /// the exact triple may not already be present.
    pub fn insert(&mut self, x: i64, y: i64, id: usize)
        requires
            old(self).wf(),
            coord_ok(x as int),
            coord_ok(y as int),
            !old(self).entries().contains(IndexEntry { x, y, id }),
        ensures
            final(self).wf(),
            final(self).radius_spec() == old(self).radius_spec(),
            final(self).entries() == old(self).entries().insert(IndexEntry { x, y, id }),
    {
        let e = IndexEntry { x, y, id };
        let bx = floor_div(x, self.radius);
        let by = floor_div(y, self.radius);
        match self.find_bucket(bx, by) {
            Some(i) => {
                let old_items = &self.buckets[i].items;
                let m = old_items.len();
                let mut items: Vec<IndexEntry> = Vec::new();
                let mut k: usize = 0;
                while k < m
                    invariant
                        i < self.buckets@.len(),
                        old_items == &self.buckets@[i as int].items,
                        m == old_items@.len(),
                        k <= m,
                        items@ =~= old_items@.take(k as int),
                    decreases m - k,
                {
                    items.push(old_items[k]);
                    proof {
                        assert(items@ =~= old_items@.take(k + 1));
                    }
                    k = k + 1;
                }
                proof {
                    assert(items@ =~= self.buckets@[i as int].items@);
                    if items@.contains(e) {
                        lemma_ms_bucket(self.buckets@, i as int, e);
                    }
                }
                items.push(e);
                let b2 = Bucket { bx, by, items };
                let ghost bs_old = self.buckets@;
                self.buckets[i] = b2;
                proof {
                    lemma_ms_update_push(bs_old, i as int, b2, e);
                    assert(self.entries() =~= old(self).entries().insert(e));
                    assert forall|ii: int|
                        0 <= ii < self.buckets@.len() implies bucket_wf(
                        #[trigger] self.buckets@[ii],
                        self.radius as int,
                    ) by {
                        assert(bucket_wf(bs_old[ii], self.radius as int));
                        if ii == i as int {
                            assert(forall|kk: int|
                                0 <= kk < b2.items@.len() - 1 ==> b2.items@[kk]
                                    == bs_old[i as int].items@[kk]);
                        }
                    }
                }
            },
            None => {
                let mut items: Vec<IndexEntry> = Vec::new();
                items.push(e);
                let b2 = Bucket { bx, by, items };
                let ghost bs_old = self.buckets@;
                self.buckets.push(b2);
                proof {
                    lemma_ms_push(bs_old, b2);
                    assert(b2.items@.to_multiset() =~= Multiset::empty().insert(e));
                    assert(self.entries() =~= old(self).entries().insert(e));
                    assert forall|ii: int|
                        0 <= ii < self.buckets@.len() implies bucket_wf(
                        #[trigger] self.buckets@[ii],
                        self.radius as int,
                    ) by {
                        if ii < bs_old.len() {
                            assert(bucket_wf(bs_old[ii], self.radius as int));
                        }
                    }
                }
            },
        }
    }

    /// Fixed-radius query: returns every stored entry whose point lies
    /// within `radius` of `(qx, qy)` — each exactly once, in
    /// unspecified order.  Scans the nine buckets around the query's
    /// bucket; `lemma_entry_slot` shows no qualifying entry can sit
    /// anywhere else.
    pub fn search(&self, qx: i64, qy: i64) -> (res: Vec<IndexEntry>)
        requires
            self.wf(),
            coord_ok(qx as int),
            coord_ok(qy as int),
        ensures
            forall|j: int|
                0 <= j < res@.len() ==> self.entries().contains(#[trigger] res@[j]) && dist2(
                    res@[j].x as int,
                    res@[j].y as int,
                    qx as int,
                    qy as int,
                ) <= self.radius_spec() * self.radius_spec(),
            forall|e: IndexEntry|
                self.entries().contains(e) && #[trigger] dist2(
                    e.x as int,
                    e.y as int,
                    qx as int,
                    qy as int,
                ) <= self.radius_spec() * self.radius_spec() ==> res@.contains(e),
            res@.no_duplicates(),
    {
        let r = self.radius;
        let ghost ri = r as int;
        let qbx = floor_div(qx, r);
        let qby = floor_div(qy, r);
        proof {
            assert((r as int) * (r as int) <= 0x4000_0000_0000_0000_0000_0000_0000_0000int)
                by (nonlinear_arith)
                requires
                    1 <= r as int <= 0x2000_0000_0000_0000int,
            ;
        }
        let r2: i128 = (r as i128) * (r as i128);
        let mut res: Vec<IndexEntry> = Vec::new();
        proof {
            assert forall|e: IndexEntry|
                self.entries().contains(e) && #[trigger] within_q(e, qx as int, qy as int, ri)
                    && slot_of(e, ri, qbx as int, qby as int) < 0 implies res@.contains(e) by {
                lemma_entry_slot(e, qx as int, qy as int, ri, qbx as int, qby as int);
            }
        }
        let mut k: usize = 0;
        while k < 9
            invariant
                self.wf(),
                coord_ok(qx as int),
                coord_ok(qy as int),
                r == self.radius,
                ri == r as int,
                qbx == bucket_coord(qx as int, ri),
                qby == bucket_coord(qy as int, ri),
                -(COORD_LIMIT as int) - 1 <= qbx <= COORD_LIMIT as int,
                -(COORD_LIMIT as int) - 1 <= qby <= COORD_LIMIT as int,
                r2 == ri * ri,
                k <= 9,
                res@.no_duplicates(),
                forall|j: int|
                    0 <= j < res@.len() ==> self.entries().contains(#[trigger] res@[j])
                        && within_q(res@[j], qx as int, qy as int, ri) && slot_of(
                        res@[j],
                        ri,
                        qbx as int,
                        qby as int,
                    ) < k,
                forall|e: IndexEntry|
                    self.entries().contains(e) && #[trigger] within_q(e, qx as int, qy as int, ri)
                        && slot_of(e, ri, qbx as int, qby as int) < k ==> res@.contains(e),
            decreases 9 - k,
        {
            let dx: i64 = (k as i64) / 3 - 1;
            let dy: i64 = (k as i64) % 3 - 1;
            let kx = qbx + dx;
            let ky = qby + dy;
            let ghost res_prev = res@;
            match self.find_bucket(kx, ky) {
                Some(bidx) => {
                    let items = &self.buckets[bidx].items;
                    let m = items.len();
                    let mut j: usize = 0;
                    while j < m
                        invariant
                            self.wf(),
                            coord_ok(qx as int),
                            coord_ok(qy as int),
                            r == self.radius,
                            ri == r as int,
                            qbx == bucket_coord(qx as int, ri),
                            qby == bucket_coord(qy as int, ri),
                            r2 == ri * ri,
                            k < 9,
                            kx == qbx + (k as int) / 3 - 1,
                            ky == qby + (k as int) % 3 - 1,
                            bidx < self.buckets@.len(),
                            items == &self.buckets@[bidx as int].items,
                            self.buckets@[bidx as int].bx == kx,
                            self.buckets@[bidx as int].by == ky,
                            m == items@.len(),
                            j <= m,
                            res@.no_duplicates(),
                            forall|jj: int|
                                0 <= jj < res@.len() ==> self.entries().contains(
                                    #[trigger] res@[jj],
                                ) && within_q(res@[jj], qx as int, qy as int, ri) && slot_of(
                                    res@[jj],
                                    ri,
                                    qbx as int,
                                    qby as int,
                                ) <= k,
                            forall|jj: int|
                                0 <= jj < res@.len() && slot_of(
                                    #[trigger] res@[jj],
                                    ri,
                                    qbx as int,
                                    qby as int,
                                ) == k ==> items@.take(j as int).contains(res@[jj]),
                            forall|e: IndexEntry|
                                self.entries().contains(e) && #[trigger] within_q(
                                    e,
                                    qx as int,
                                    qy as int,
                                    ri,
                                ) && slot_of(e, ri, qbx as int, qby as int) < k ==> res@.contains(
                                    e,
                                ),
                            forall|jj: int|
                                0 <= jj < j && within_q(
                                    #[trigger] items@[jj],
                                    qx as int,
                                    qy as int,
                                    ri,
                                ) ==> res@.contains(items@[jj]),
                        decreases m - j,
                    {
                        let e = items[j];
                        let ghost rb = res@;
                        proof {
                            assert(bucket_wf(self.buckets@[bidx as int], ri));
                            assert(coord_ok(e.x as int) && coord_ok(e.y as int));
                        }
                        let ex: i128 = e.x as i128 - qx as i128;
                        let ey: i128 = e.y as i128 - qy as i128;
                        proof {
                            assert((ex as int) * (ex as int)
                                < 0x2000_0000_0000_0000_0000_0000_0000_0000int && (ey as int) * (
                            ey as int) < 0x2000_0000_0000_0000_0000_0000_0000_0000int && (ex as int)
                                * (ex as int) >= 0 && (ey as int) * (ey as int) >= 0)
                                by (nonlinear_arith)
                                requires
                                    -0x4000_0000_0000_0000int <= ex as int
                                        <= 0x4000_0000_0000_0000int,
                                    -0x4000_0000_0000_0000int <= ey as int
                                        <= 0x4000_0000_0000_0000int,
                            ;
                        }
                        let d2: i128 = ex * ex + ey * ey;
                        proof {
                            assert(d2 == dist2(e.x as int, e.y as int, qx as int, qy as int));
                        }
                        if d2 <= r2 {
                            proof {
                                lemma_ms_bucket(self.buckets@, bidx as int, e);
                                lemma_entry_slot(
                                    e,
                                    qx as int,
                                    qy as int,
                                    ri,
                                    qbx as int,
                                    qby as int,
                                );
                                vstd::arithmetic::div_mod::lemma_fundamental_div_mod_converse(
                                    k as int,
                                    3,
                                    (k as int) / 3,
                                    (k as int) % 3,
                                );
                                assert(slot_of(e, ri, qbx as int, qby as int) == k);
                                if res@.contains(e) {
                                    let jj = choose|jj: int|
                                        0 <= jj < res@.len() && res@[jj] == e;
                                    assert(items@.take(j as int).contains(e));
                                    let j2 = choose|j2: int|
                                        0 <= j2 < j && items@.take(j as int)[j2] == e;
                                    assert(items@[j2] == items@[j as int]);
                                    assert(false);
                                }
                            }
                            res.push(e);
                            proof {
                                assert forall|jj: int|
                                    0 <= jj < res@.len() && slot_of(
                                        #[trigger] res@[jj],
                                        ri,
                                        qbx as int,
                                        qby as int,
                                    ) == k implies items@.take(j + 1).contains(res@[jj]) by {
                                    if jj < res@.len() - 1 {
                                        assert(items@.take(j as int).contains(res@[jj]));
                                        let j2 = choose|j2: int|
                                            0 <= j2 < j && items@.take(j as int)[j2] == res@[jj];
                                        assert(items@.take(j + 1)[j2] == res@[jj]);
                                    } else {
                                        assert(items@.take(j + 1)[j as int] == e);
                                    }
                                }
                            }
                        } else {
                            proof {
                                assert(!within_q(e, qx as int, qy as int, ri));
                                assert forall|jj: int|
                                    0 <= jj < res@.len() && slot_of(
                                        #[trigger] res@[jj],
                                        ri,
                                        qbx as int,
                                        qby as int,
                                    ) == k implies items@.take(j + 1).contains(res@[jj]) by {
                                    assert(items@.take(j as int).contains(res@[jj]));
                                    let j2 = choose|j2: int|
                                        0 <= j2 < j && items@.take(j as int)[j2] == res@[jj];
                                    assert(items@.take(j + 1)[j2] == res@[jj]);
                                }
                            }
                        }
                        proof {
                            assert(items@.take(j + 1)[j as int] == items@[j as int]);
                            assert forall|e2: IndexEntry| rb.contains(e2) implies res@.contains(
                                e2,
                            ) by {
                                let mi = choose|mi: int| 0 <= mi < rb.len() && rb[mi] == e2;
                                assert(res@[mi] == e2);
                            }
                            assert forall|jj: int|
                                0 <= jj < j + 1 && within_q(
                                    #[trigger] items@[jj],
                                    qx as int,
                                    qy as int,
                                    ri,
                                ) implies res@.contains(items@[jj]) by {
                                if jj == j as int {
                                    assert(res@[res@.len() - 1] == e);
                                } else {
                                    assert(rb.contains(items@[jj]));
                                }
                            }
                        }
                        j = j + 1;
                    }
                    proof {
                        assert forall|e: IndexEntry|
                            self.entries().contains(e) && #[trigger] within_q(
                                e,
                                qx as int,
                                qy as int,
                                ri,
                            ) && slot_of(e, ri, qbx as int, qby as int) < k + 1 implies res@.contains(
                            e,
                        ) by {
                            if slot_of(e, ri, qbx as int, qby as int) == k as int {
                                lemma_entry_slot(e, qx as int, qy as int, ri, qbx as int, qby as int);
                                vstd::arithmetic::div_mod::lemma_fundamental_div_mod_converse(
                                    k as int,
                                    3,
                                    (k as int) / 3,
                                    (k as int) % 3,
                                );
                                lemma_ms_to_bucket(self.buckets@, e);
                                let i2 = choose|i2: int|
                                    0 <= i2 < self.buckets@.len() && (
                                    #[trigger] self.buckets@[i2]).items@.contains(e);
                                assert(bucket_wf(self.buckets@[i2], ri));
                                let kk = choose|kk: int|
                                    0 <= kk < self.buckets@[i2].items@.len()
                                        && self.buckets@[i2].items@[kk] == e;
                                assert(self.buckets@[i2].bx == kx && self.buckets@[i2].by == ky);
                                if i2 != bidx as int {
                                    assert(false);
                                }
                            }
                        }
                    }
                },
                None => {
                    proof {
                        assert forall|e: IndexEntry|
                            self.entries().contains(e) && #[trigger] within_q(
                                e,
                                qx as int,
                                qy as int,
                                ri,
                            ) && slot_of(e, ri, qbx as int, qby as int) < k + 1 implies res@.contains(
                            e,
                        ) by {
                            if slot_of(e, ri, qbx as int, qby as int) == k as int {
                                lemma_entry_slot(e, qx as int, qy as int, ri, qbx as int, qby as int);
                                vstd::arithmetic::div_mod::lemma_fundamental_div_mod_converse(
                                    k as int,
                                    3,
                                    (k as int) / 3,
                                    (k as int) % 3,
                                );
                                lemma_ms_to_bucket(self.buckets@, e);
                                let i2 = choose|i2: int|
                                    0 <= i2 < self.buckets@.len() && (
                                    #[trigger] self.buckets@[i2]).items@.contains(e);
                                assert(bucket_wf(self.buckets@[i2], ri));
                                let kk = choose|kk: int|
                                    0 <= kk < self.buckets@[i2].items@.len()
                                        && self.buckets@[i2].items@[kk] == e;
                                assert(self.buckets@[i2].bx == kx && self.buckets@[i2].by == ky);
                                assert(false);
                            }
                        }
                    }
                },
            }
            k = k + 1;
        }
        proof {
            assert forall|e: IndexEntry|
                self.entries().contains(e) && #[trigger] dist2(
                    e.x as int,
                    e.y as int,
                    qx as int,
                    qy as int,
                ) <= self.radius_spec() * self.radius_spec() implies res@.contains(e) by {
                lemma_entry_slot(e, qx as int, qy as int, ri, qbx as int, qby as int);
            }
        }
        res
    }
}

} // verus!
