//! Elevation-percentile filter core.
//!
//! Elevations enter as scaled integers: the caller fixes a precision of
//! `d` retained digits and hands over `floor(z * 10^d)` per cell.  Stage A
//! maps a scaled elevation `s` to the bin `s - min_bin`; stage B slides a
//! rectangular window along each row and, for every cell, counts how many
//! valid window cells hold a bin strictly below the centre cell's bin.
//! The percentile rank of a cell is `100 * n_less / n`, which the caller
//! forms from the exact pair returned here.

use vstd::prelude::*;

use crate::grid::Grid2D;
use crate::CoreError;

verus! {

broadcast use crate::grid::lemma_cell_oob;

/// Bin-grid nodata sentinel: the minimum representable value, safely out
/// of band because valid bins lie in `[0, num_bins)`.
pub const BIN_NODATA: i64 = i64::MIN;

/// Largest accepted window midpoint (half kernel size).
pub const MAX_MID: u64 = 0x4000_0000;

/// Largest accepted bin count.
pub const MAX_BINS: u64 = 0x4000_0000_0000_0000;

// ---------------------------------------------------------------------
// Window counting model.
//
// A window is addressed by its first column `c0`, width `w`, first row
// `r0` and height `h`; reads outside the grid yield the sentinel, so no
// clipping is needed here.  `col_*` count one column, `win_*` sum the
// `w` columns of a window.
// ---------------------------------------------------------------------

/// Valid (non-nodata) cells in rows `r0..r0+h` of column `c2`.
pub open spec fn col_valid(g: Grid2D, c2: int, r0: int, h: nat) -> int
    decreases h,
{
    if h == 0 {
        0
    } else {
        col_valid(g, c2, r0, (h - 1) as nat) + if g.cell(r0 + h - 1, c2) != BIN_NODATA {
            1int
        } else {
            0int
        }
    }
}

/// Valid cells of the column slice whose bin is strictly below `rf`.
pub open spec fn col_less(g: Grid2D, c2: int, r0: int, h: nat, rf: int) -> int
    decreases h,
{
    if h == 0 {
        0
    } else {
        col_less(g, c2, r0, (h - 1) as nat, rf) + if g.cell(r0 + h - 1, c2) != BIN_NODATA
            && g.cell(r0 + h - 1, c2) < rf {
            1int
        } else {
            0int
        }
    }
}

/// Cells of the column slice whose bin equals `v`.
pub open spec fn col_eq(g: Grid2D, c2: int, r0: int, h: nat, v: int) -> int
    decreases h,
{
    if h == 0 {
        0
    } else {
        col_eq(g, c2, r0, (h - 1) as nat, v) + if g.cell(r0 + h - 1, c2) == v {
            1int
        } else {
            0int
        }
    }
}

/// Valid cells in the `w x h` window at `(c0, r0)`.
pub open spec fn win_valid(g: Grid2D, c0: int, w: nat, r0: int, h: nat) -> int
    decreases w,
{
    if w == 0 {
        0
    } else {
        win_valid(g, c0, (w - 1) as nat, r0, h) + col_valid(g, c0 + w - 1, r0, h)
    }
}

/// Valid window cells with bin strictly below `rf`.
pub open spec fn win_less(g: Grid2D, c0: int, w: nat, r0: int, h: nat, rf: int) -> int
    decreases w,
{
    if w == 0 {
        0
    } else {
        win_less(g, c0, (w - 1) as nat, r0, h, rf) + col_less(g, c0 + w - 1, r0, h, rf)
    }
}

/// Window cells with bin equal to `v`.
pub open spec fn win_eq(g: Grid2D, c0: int, w: nat, r0: int, h: nat, v: int) -> int
    decreases w,
{
    if w == 0 {
        0
    } else {
        win_eq(g, c0, (w - 1) as nat, r0, h, v) + col_eq(g, c0 + w - 1, r0, h, v)
    }
}

/// Histogram prefix sum over the window: total mass of bins `0..v`.
pub open spec fn win_prefix(g: Grid2D, c0: int, w: nat, r0: int, h: nat, v: nat) -> int
    decreases v,
{
    if v == 0 {
        0
    } else {
        win_prefix(g, c0, w, r0, h, (v - 1) as nat) + win_eq(g, c0, w, r0, h, v - 1)
    }
}

/// A well-formed bin grid: the sentinel is `BIN_NODATA` and every read,
/// inside the bounds or out, yields the sentinel or a bin in
/// `[0, num_bins)`.
pub open spec fn bins_ok(g: Grid2D, num_bins: int) -> bool {
    &&& g.wf()
    &&& g.nodata_in() == BIN_NODATA
    &&& forall|r: int, c: int|
        #[trigger] g.cell(r, c) == BIN_NODATA || (0 <= g.cell(r, c) < num_bins)
}

// ---------------------------------------------------------------------
// Lemmas about the counting model.
// ---------------------------------------------------------------------

pub proof fn lemma_col_bounds(g: Grid2D, c2: int, r0: int, h: nat, rf: int, v: int)
    ensures
        0 <= col_valid(g, c2, r0, h) <= h,
        0 <= col_less(g, c2, r0, h, rf) <= col_valid(g, c2, r0, h),
        0 <= col_eq(g, c2, r0, h, v),
        v != BIN_NODATA ==> col_eq(g, c2, r0, h, v) <= col_valid(g, c2, r0, h),
    decreases h,
{
    if h > 0 {
        lemma_col_bounds(g, c2, r0, (h - 1) as nat, rf, v);
    }
}

pub proof fn lemma_win_bounds(g: Grid2D, c0: int, w: nat, r0: int, h: nat, rf: int, v: int)
    ensures
        0 <= win_valid(g, c0, w, r0, h) <= w * h,
        0 <= win_less(g, c0, w, r0, h, rf) <= win_valid(g, c0, w, r0, h),
        0 <= win_eq(g, c0, w, r0, h, v),
        v != BIN_NODATA ==> win_eq(g, c0, w, r0, h, v) <= win_valid(g, c0, w, r0, h),
    decreases w,
{
    if w > 0 {
        lemma_win_bounds(g, c0, (w - 1) as nat, r0, h, rf, v);
        lemma_col_bounds(g, c0 + w - 1, r0, h, rf, v);
        let w1 = (w - 1) as nat;
        assert(w * h == w1 * h + h) by (nonlinear_arith)
            requires
                w >= 1,
                w1 == w - 1,
        ;
    }
}

/// Unfolding a window sum from its left edge instead of its right.
pub proof fn lemma_win_unfold_left(g: Grid2D, c0: int, w: nat, r0: int, h: nat, rf: int, v: int)
    requires
        w >= 1,
    ensures
        win_valid(g, c0, w, r0, h) == col_valid(g, c0, r0, h) + win_valid(
            g,
            c0 + 1,
            (w - 1) as nat,
            r0,
            h,
        ),
        win_less(g, c0, w, r0, h, rf) == col_less(g, c0, r0, h, rf) + win_less(
            g,
            c0 + 1,
            (w - 1) as nat,
            r0,
            h,
            rf,
        ),
        win_eq(g, c0, w, r0, h, v) == col_eq(g, c0, r0, h, v) + win_eq(
            g,
            c0 + 1,
            (w - 1) as nat,
            r0,
            h,
            v,
        ),
    decreases w,
{
    assert(win_valid(g, c0, w, r0, h) == win_valid(g, c0, (w - 1) as nat, r0, h) + col_valid(
        g,
        c0 + w - 1,
        r0,
        h,
    ));
    assert(win_less(g, c0, w, r0, h, rf) == win_less(g, c0, (w - 1) as nat, r0, h, rf) + col_less(
        g,
        c0 + w - 1,
        r0,
        h,
        rf,
    ));
    assert(win_eq(g, c0, w, r0, h, v) == win_eq(g, c0, (w - 1) as nat, r0, h, v) + col_eq(
        g,
        c0 + w - 1,
        r0,
        h,
        v,
    ));
    if w > 1 {
        lemma_win_unfold_left(g, c0, (w - 1) as nat, r0, h, rf, v);
        assert(win_valid(g, c0 + 1, (w - 1) as nat, r0, h) == win_valid(
            g,
            c0 + 1,
            (w - 2) as nat,
            r0,
            h,
        ) + col_valid(g, c0 + w - 1, r0, h));
        assert(win_less(g, c0 + 1, (w - 1) as nat, r0, h, rf) == win_less(
            g,
            c0 + 1,
            (w - 2) as nat,
            r0,
            h,
            rf,
        ) + col_less(g, c0 + w - 1, r0, h, rf));
        assert(win_eq(g, c0 + 1, (w - 1) as nat, r0, h, v) == win_eq(
            g,
            c0 + 1,
            (w - 2) as nat,
            r0,
            h,
            v,
        ) + col_eq(g, c0 + w - 1, r0, h, v));
    }
}

/// Sliding the window one column to the right: drop the old leftmost
/// column, add the new rightmost one.
pub proof fn lemma_win_slide(g: Grid2D, c0: int, w: nat, r0: int, h: nat, rf: int, v: int)
    requires
        w >= 1,
    ensures
        win_valid(g, c0 + 1, w, r0, h) == win_valid(g, c0, w, r0, h) - col_valid(g, c0, r0, h)
            + col_valid(g, c0 + w, r0, h),
        win_less(g, c0 + 1, w, r0, h, rf) == win_less(g, c0, w, r0, h, rf) - col_less(
            g,
            c0,
            r0,
            h,
            rf,
        ) + col_less(g, c0 + w, r0, h, rf),
        win_eq(g, c0 + 1, w, r0, h, v) == win_eq(g, c0, w, r0, h, v) - col_eq(g, c0, r0, h, v)
            + col_eq(g, c0 + w, r0, h, v),
{
    lemma_win_unfold_left(g, c0, (w + 1) as nat, r0, h, rf, v);
    assert(win_valid(g, c0, (w + 1) as nat, r0, h) == win_valid(g, c0, w, r0, h) + col_valid(
        g,
        c0 + w,
        r0,
        h,
    ));
    assert(win_less(g, c0, (w + 1) as nat, r0, h, rf) == win_less(g, c0, w, r0, h, rf) + col_less(
        g,
        c0 + w,
        r0,
        h,
        rf,
    ));
    assert(win_eq(g, c0, (w + 1) as nat, r0, h, v) == win_eq(g, c0, w, r0, h, v) + col_eq(
        g,
        c0 + w,
        r0,
        h,
        v,
    ));
}

/// Splitting a strict-below count at `rf` into the count below `rf - 1`
/// plus the mass of bin `rf - 1`.
pub proof fn lemma_col_less_step(g: Grid2D, c2: int, r0: int, h: nat, rf: int)
    requires
        rf - 1 != BIN_NODATA,
    ensures
        col_less(g, c2, r0, h, rf) == col_less(g, c2, r0, h, rf - 1) + col_eq(g, c2, r0, h, rf - 1),
    decreases h,
{
    if h > 0 {
        lemma_col_less_step(g, c2, r0, (h - 1) as nat, rf);
    }
}

pub proof fn lemma_win_less_step(g: Grid2D, c0: int, w: nat, r0: int, h: nat, rf: int)
    requires
        rf - 1 != BIN_NODATA,
    ensures
        win_less(g, c0, w, r0, h, rf) == win_less(g, c0, w, r0, h, rf - 1) + win_eq(
            g,
            c0,
            w,
            r0,
            h,
            rf - 1,
        ),
    decreases w,
{
    if w > 0 {
        lemma_win_less_step(g, c0, (w - 1) as nat, r0, h, rf);
        lemma_col_less_step(g, c0 + w - 1, r0, h, rf);
    }
}

pub proof fn lemma_col_less_zero(g: Grid2D, num_bins: int, c2: int, r0: int, h: nat)
    requires
        bins_ok(g, num_bins),
    ensures
        col_less(g, c2, r0, h, 0) == 0,
        col_less(g, c2, r0, h, num_bins) == col_valid(g, c2, r0, h),
    decreases h,
{
    if h > 0 {
        lemma_col_less_zero(g, num_bins, c2, r0, (h - 1) as nat);
        assert(g.cell(r0 + h - 1, c2) == BIN_NODATA || (0 <= g.cell(r0 + h - 1, c2) < num_bins));
    }
}

pub proof fn lemma_win_less_zero(g: Grid2D, num_bins: int, c0: int, w: nat, r0: int, h: nat)
    requires
        bins_ok(g, num_bins),
    ensures
        win_less(g, c0, w, r0, h, 0) == 0,
        win_less(g, c0, w, r0, h, num_bins) == win_valid(g, c0, w, r0, h),
    decreases w,
{
    if w > 0 {
        lemma_win_less_zero(g, num_bins, c0, (w - 1) as nat, r0, h);
        lemma_col_less_zero(g, num_bins, c0 + w - 1, r0, h);
    }
}

/// Histogram consistency, strict-below half: the prefix mass of bins
/// `0..rf` equals the strict-below count against reference `rf`.
pub proof fn lemma_histogram_less(
    g: Grid2D,
    num_bins: int,
    c0: int,
    w: nat,
    r0: int,
    h: nat,
    rf: nat,
)
    requires
        bins_ok(g, num_bins),
    ensures
        win_prefix(g, c0, w, r0, h, rf) == win_less(g, c0, w, r0, h, rf as int),
    decreases rf,
{
    if rf == 0 {
        lemma_win_less_zero(g, num_bins, c0, w, r0, h);
    } else {
        lemma_histogram_less(g, num_bins, c0, w, r0, h, (rf - 1) as nat);
        lemma_win_less_step(g, c0, w, r0, h, rf as int);
    }
}

/// Histogram consistency, total half: the whole histogram mass equals
/// the window's valid-cell count.
pub proof fn lemma_histogram_total(g: Grid2D, num_bins: nat, c0: int, w: nat, r0: int, h: nat)
    requires
        bins_ok(g, num_bins as int),
    ensures
        win_prefix(g, c0, w, r0, h, num_bins) == win_valid(g, c0, w, r0, h),
{
    lemma_histogram_less(g, num_bins as int, c0, w, r0, h, num_bins);
    lemma_win_less_zero(g, num_bins as int, c0, w, r0, h);
}

pub proof fn lemma_win_prefix_mono(g: Grid2D, c0: int, w: nat, r0: int, h: nat, v1: nat, v2: nat)
    requires
        v1 <= v2,
    ensures
        win_prefix(g, c0, w, r0, h, v1) <= win_prefix(g, c0, w, r0, h, v2),
    decreases v2,
{
    if v1 < v2 {
        lemma_win_prefix_mono(g, c0, w, r0, h, v1, (v2 - 1) as nat);
        lemma_win_bounds(g, c0, w, r0, h, 0, v2 - 1);
    }
}

pub proof fn lemma_win_prefix_nonneg(g: Grid2D, c0: int, w: nat, r0: int, h: nat, v: nat)
    ensures
        0 <= win_prefix(g, c0, w, r0, h, v),
{
    lemma_win_prefix_mono(g, c0, w, r0, h, 0, v);
}

/// A partial column count never exceeds the full column count.
pub proof fn lemma_col_mono(g: Grid2D, c2: int, r0: int, i: nat, h: nat, rf: int, v: int)
    requires
        i <= h,
    ensures
        col_valid(g, c2, r0, i) <= col_valid(g, c2, r0, h),
        col_less(g, c2, r0, i, rf) <= col_less(g, c2, r0, h, rf),
        col_eq(g, c2, r0, i, v) <= col_eq(g, c2, r0, h, v),
    decreases h,
{
    if i < h {
        lemma_col_mono(g, c2, r0, i, (h - 1) as nat, rf, v);
    }
}

/// A column inside the window contributes no more than the window total.
pub proof fn lemma_col_within_win(
    g: Grid2D,
    c0: int,
    w: nat,
    r0: int,
    h: nat,
    c2: int,
    rf: int,
    v: int,
)
    requires
        c0 <= c2 < c0 + w,
    ensures
        col_valid(g, c2, r0, h) <= win_valid(g, c0, w, r0, h),
        col_less(g, c2, r0, h, rf) <= win_less(g, c0, w, r0, h, rf),
        col_eq(g, c2, r0, h, v) <= win_eq(g, c0, w, r0, h, v),
    decreases w,
{
    if c2 == c0 + w - 1 {
        lemma_win_bounds(g, c0, (w - 1) as nat, r0, h, rf, v);
    } else {
        lemma_col_within_win(g, c0, (w - 1) as nat, r0, h, c2, rf, v);
        lemma_col_bounds(g, c0 + w - 1, r0, h, rf, v);
    }
}

/// A valid cell inside the window makes the window's valid count
/// positive; the centre cell of a valid window cell therefore always
/// counts itself, so the percentile denominator is never zero.
pub proof fn lemma_center_counted(g: Grid2D, c0: int, w: nat, r0: int, h: nat, r: int, c: int)
    requires
        c0 <= c < c0 + w,
        r0 <= r < r0 + h,
        g.cell(r, c) != BIN_NODATA,
    ensures
        win_valid(g, c0, w, r0, h) >= 1,
{
    lemma_col_valid_at(g, c, r0, h, r);
    lemma_col_within_win(g, c0, w, r0, h, c, 0, 0);
}

pub proof fn lemma_col_valid_at(g: Grid2D, c2: int, r0: int, h: nat, rr: int)
    requires
        r0 <= rr < r0 + h,
        g.cell(rr, c2) != BIN_NODATA,
    ensures
        col_valid(g, c2, r0, h) >= 1,
    decreases h,
{
    if rr < r0 + h - 1 {
        lemma_col_valid_at(g, c2, r0, (h - 1) as nat, rr);
    } else {
        lemma_col_bounds(g, c2, r0, (h - 1) as nat, 0, 0);
    }
}

// ---------------------------------------------------------------------
// Stage A: binning.
// ---------------------------------------------------------------------

/// Every scaled value of the row is either nodata or bins into
/// `[0, num_bins)` after subtracting `min_bin`.
pub open spec fn row_bins_ok(row: Seq<i64>, nd: i64, min_bin: i64, num_bins: int) -> bool {
    forall|i: int|
        0 <= i < row.len() ==> (#[trigger] row[i]) == nd || (min_bin <= row[i] && row[i] - min_bin
            < num_bins)
}

/// Bins one row of scaled elevations.  Nodata maps to `BIN_NODATA`; a
/// value binning outside `[0, num_bins)` shows the raster's declared
/// range is wrong and is rejected as an invariant violation.
pub fn bin_row(row: &Vec<i64>, nd: i64, min_bin: i64, num_bins: usize) -> (res: Result<
    Vec<i64>,
    CoreError,
>)
    requires
        num_bins as u64 <= MAX_BINS,
    ensures
        res is Ok <==> row_bins_ok(row@, nd, min_bin, num_bins as int),
        res is Err ==> res == Result::<Vec<i64>, CoreError>::Err(CoreError::InvariantViolation),
        res matches Ok(out) ==> {
            &&& out@.len() == row@.len()
            &&& forall|i: int|
                0 <= i < row@.len() && row@[i] == nd ==> #[trigger] out@[i] == BIN_NODATA
            &&& forall|i: int|
                0 <= i < row@.len() && row@[i] != nd ==> (#[trigger] out@[i]) == row@[i] - min_bin
                    && 0 <= out@[i] < num_bins && out@[i] + min_bin == row@[i]
        },
{
    let mut out: Vec<i64> = Vec::new();
    let mut i: usize = 0;
    while i < row.len()
        invariant
            num_bins as u64 <= MAX_BINS,
            i <= row@.len(),
            out@.len() == i,
            forall|j: int| 0 <= j < i ==> (#[trigger] row@[j]) == nd || (min_bin <= row@[j]
                && row@[j] - min_bin < num_bins),
            forall|j: int| 0 <= j < i && row@[j] == nd ==> #[trigger] out@[j] == BIN_NODATA,
            forall|j: int|
                0 <= j < i && row@[j] != nd ==> (#[trigger] out@[j]) == row@[j] - min_bin,
        decreases row@.len() - i,
    {
        let s = row[i];
        if s == nd {
            out.push(BIN_NODATA);
        } else {
            let d: i128 = s as i128 - min_bin as i128;
            if d < 0 || d >= num_bins as i128 {
                return Err(CoreError::InvariantViolation);
            }
            out.push(d as i64);
        }
        i = i + 1;
    }
    Ok(out)
}

/// The bin value every read of the bin grid must yield: nodata reads
/// (and reads outside the bounds) map to the sentinel, valid reads to
/// the scaled value minus `min_bin`.
pub open spec fn spec_bin_cell(z: Grid2D, min_bin: i64, r: int, c: int) -> i64 {
    if !z.in_bounds(r, c) {
        BIN_NODATA
    } else if z.cell(r, c) == z.nodata_in() {
        BIN_NODATA
    } else {
        (z.cell(r, c) - min_bin) as i64
    }
}

/// The whole-grid form of `row_bins_ok`, phrased over reads so that
/// out-of-bounds reads (which yield the sentinel) are covered too.
pub open spec fn grid_bins_ok(z: Grid2D, min_bin: i64, num_bins: int) -> bool {
    forall|r: int, c: int|
        #[trigger] z.cell(r, c) == z.nodata_in() || (min_bin <= z.cell(r, c) && z.cell(r, c)
            - min_bin < num_bins)
}

/// Stage A over the whole grid: produces the bin grid consumed by the
/// sliding-window pass.  `min_bin` is `floor(min * 10^d)` for the
/// raster's declared minimum and `num_bins` the declared bin count.
pub fn bin_grid(z: &Grid2D, min_bin: i64, num_bins: usize) -> (res: Result<Grid2D, CoreError>)
    requires
        z.wf(),
        num_bins as u64 <= MAX_BINS,
    ensures
        res is Ok <==> grid_bins_ok(*z, min_bin, num_bins as int),
        res is Err ==> res == Result::<Grid2D, CoreError>::Err(CoreError::InvariantViolation),
        res matches Ok(b) ==> {
            &&& b.wf()
            &&& b.rows() == z.rows()
            &&& b.cols() == z.cols()
            &&& b.nodata_in() == BIN_NODATA
            &&& b.nodata_out() == BIN_NODATA
            &&& bins_ok(b, num_bins as int)
            &&& forall|r: int, c: int|
                z.in_bounds(r, c) && z.cell(r, c) == z.nodata_in() ==> #[trigger] b.cell(r, c)
                    == BIN_NODATA
            &&& forall|r: int, c: int|
                z.in_bounds(r, c) && z.cell(r, c) != z.nodata_in() ==> (#[trigger] b.cell(r, c))
                    == z.cell(r, c) - min_bin
            &&& forall|r: int, c: int| #[trigger] b.cell(r, c) == spec_bin_cell(*z, min_bin, r, c)
        },
{
    proof {
        z.lemma_wf_dims();
    }
    let rows = z.num_rows();
    let cols = z.num_cols();
    let nd = z.nodata_in_value();
    let mut b = Grid2D::new(rows, cols, BIN_NODATA, BIN_NODATA);
    let mut r: usize = 0;
    while r < rows
        invariant
            z.wf(),
            num_bins as u64 <= MAX_BINS,
            rows == z.rows(),
            cols == z.cols(),
            nd == z.nodata_in(),
            r <= rows,
            b.wf(),
            b.rows() == rows,
            b.cols() == cols,
            b.nodata_in() == BIN_NODATA,
            b.nodata_out() == BIN_NODATA,
            forall|r2: int, c2: int|
                !(0 <= r2 < r && 0 <= c2 < cols) ==> #[trigger] b.cell(r2, c2) == BIN_NODATA,
            forall|r2: int, c2: int|
                0 <= r2 < r && 0 <= c2 < cols ==> (#[trigger] z.cell(r2, c2)) == nd || (min_bin
                    <= z.cell(r2, c2) && z.cell(r2, c2) - min_bin < num_bins),
            forall|r2: int, c2: int|
                0 <= r2 < r && 0 <= c2 < cols && z.cell(r2, c2) == nd ==> #[trigger] b.cell(r2, c2)
                    == BIN_NODATA,
            forall|r2: int, c2: int|
                0 <= r2 < r && 0 <= c2 < cols && z.cell(r2, c2) != nd ==> (#[trigger] b.cell(
                    r2,
                    c2,
                )) == z.cell(r2, c2) - min_bin,
        decreases rows - r,
    {
        let zrow = z.row_vec(r);
        let binned = bin_row(&zrow, nd, min_bin, num_bins);
        match binned {
            Ok(data) => {
                let ghost b_prev = b;
                let set_res = b.set_row(r, data);
                proof {
                    assert(set_res is Ok);
                    assert forall|c2: int| 0 <= c2 < cols implies (#[trigger] z.cell(
                        r as int,
                        c2,
                    )) == nd || (min_bin <= z.cell(r as int, c2) && z.cell(r as int, c2) - min_bin
                        < num_bins) by {
                        assert(zrow@[c2] == z.cell(r as int, c2));
                    }
                    assert forall|c2: int|
                        0 <= c2 < cols && z.cell(r as int, c2) == nd implies #[trigger] b.cell(
                        r as int,
                        c2,
                    ) == BIN_NODATA by {
                        assert(zrow@[c2] == z.cell(r as int, c2));
                        assert(b.cell(r as int, c2) == data@[c2]);
                    }
                    assert forall|c2: int|
                        0 <= c2 < cols && z.cell(r as int, c2) != nd implies (#[trigger] b.cell(
                        r as int,
                        c2,
                    )) == z.cell(r as int, c2) - min_bin by {
                        assert(zrow@[c2] == z.cell(r as int, c2));
                        assert(b.cell(r as int, c2) == data@[c2]);
                    }
                    assert forall|r2: int, c2: int|
                        !(0 <= r2 < r + 1 && 0 <= c2 < cols) implies #[trigger] b.cell(r2, c2)
                        == BIN_NODATA by {
                        if r2 != r as int {
                            assert(b.cell(r2, c2) == b_prev.cell(r2, c2));
                        }
                    }
                }
            },
            Err(e) => {
                proof {
                    let bad = choose|i: int|
                        0 <= i < cols && !(zrow@[i] == nd || (min_bin <= zrow@[i] && zrow@[i]
                            - min_bin < num_bins));
                    assert(z.cell(r as int, bad) == zrow@[bad]);
                }
                return Err(CoreError::InvariantViolation);
            },
        }
        r = r + 1;
    }
    proof {
        assert forall|r2: int, c2: int| #[trigger] b.cell(r2, c2) == spec_bin_cell(
            *z,
            min_bin,
            r2,
            c2,
        ) by {
            if !z.in_bounds(r2, c2) {
                assert(b.cell(r2, c2) == BIN_NODATA);
            }
        }
    }
    Ok(b)
}

// ---------------------------------------------------------------------
// Stage B: sliding-window percentile.
// ---------------------------------------------------------------------

/// One output cell of stage B: nodata, or the exact rank pair.  The
/// percentile rank is `100 * n_less / n`; `n` counts the valid cells of
/// the window and `n_less` those strictly below the centre cell's bin.
#[derive(Clone, Copy, PartialEq, Eq, Structural, Debug)]
pub enum RankCell {
    Nodata,
    Rank { n_less: u64, n: u64 },
}

/// The specified output at `(r, c)` for window midpoints `(mx, my)`.
pub open spec fn spec_rank_cell(g: Grid2D, r: int, c: int, mx: nat, my: nat) -> RankCell {
    let rf = g.cell(r, c);
    if rf == BIN_NODATA {
        RankCell::Nodata
    } else {
        RankCell::Rank {
            n_less: win_less(
                g,
                c - mx,
                (2 * mx + 1) as nat,
                r - my,
                (2 * my + 1) as nat,
                rf as int,
            ) as u64,
            n: win_valid(g, c - mx, (2 * mx + 1) as nat, r - my, (2 * my + 1) as nat) as u64,
        }
    }
}

/// The window area fits comfortably in a `u64`, so the running counters
/// never overflow.
proof fn lemma_window_area(mx: nat, my: nat)
    requires
        mx <= MAX_MID,
        my <= MAX_MID,
    ensures
        (2 * mx + 1) * (2 * my + 1) < 0x8000_0000_0000_0000,
{
    assert((2 * mx + 1) * (2 * my + 1) < 0x8000_0000_0000_0000) by (nonlinear_arith)
        requires
            mx <= MAX_MID,
            my <= MAX_MID,
    ;
}

fn zeros(len: usize) -> (out: Vec<u64>)
    ensures
        out@.len() == len,
        forall|u: int| 0 <= u < len ==> #[trigger] out@[u] == 0,
{
    let mut out: Vec<u64> = Vec::new();
    let mut i: usize = 0;
    while i < len
        invariant
            i <= len,
            out@.len() == i,
            forall|u: int| 0 <= u < i ==> #[trigger] out@[u] == 0,
        decreases len - i,
    {
        out.push(0);
        i = i + 1;
    }
    out
}

fn zero_histo(histo: &mut Vec<u64>)
    ensures
        final(histo)@.len() == old(histo)@.len(),
        forall|u: int| 0 <= u < final(histo)@.len() ==> #[trigger] final(histo)@[u] == 0,
{
    let len = histo.len();
    let mut i: usize = 0;
    while i < len
        invariant
            i <= len,
            histo@.len() == len,
            forall|u: int| 0 <= u < i ==> #[trigger] histo@[u] == 0,
        decreases len - i,
    {
        histo[i] = 0;
        i = i + 1;
    }
}

/// Subtracts one column of the window from the running histogram state.
/// `cmp` is the comparison bin for the `n_less` counter.
fn remove_column(
    b: &Grid2D,
    histo: &mut Vec<u64>,
    n: &mut u64,
    n_less: &mut u64,
    ct: i64,
    row: usize,
    my: usize,
    cmp: i64,
    num_bins: usize,
)
    requires
        bins_ok(*b, num_bins as int),
        old(histo)@.len() == num_bins,
        row < b.rows(),
        my as u64 <= MAX_MID,
        forall|u: int|
            0 <= u < num_bins ==> col_eq(*b, ct as int, row - my, (2 * my + 1) as nat, u) <= (
            #[trigger] old(histo)@[u]),
        col_valid(*b, ct as int, row - my, (2 * my + 1) as nat) <= *old(n),
        col_less(*b, ct as int, row - my, (2 * my + 1) as nat, cmp as int) <= *old(n_less),
    ensures
        final(histo)@.len() == num_bins,
        forall|u: int|
            0 <= u < num_bins ==> (#[trigger] final(histo)@[u]) == old(histo)@[u] - col_eq(
                *b,
                ct as int,
                row - my,
                (2 * my + 1) as nat,
                u,
            ),
        *final(n) == *old(n) - col_valid(*b, ct as int, row - my, (2 * my + 1) as nat),
        *final(n_less) == *old(n_less) - col_less(*b, ct as int, row - my, (2 * my + 1) as nat, cmp as int),
{
    proof {
        b.lemma_wf_dims();
    }
    let ghost r0 = row - my;
    let ghost gh = (2 * my + 1) as nat;
    let height: usize = 2 * my + 1;
    let mut k: usize = 0;
    while k < height
        invariant
            bins_ok(*b, num_bins as int),
            histo@.len() == num_bins,
            row < b.rows(),
            b.rows() < crate::grid::MAX_EXTENT,
            my as u64 <= MAX_MID,
            height == 2 * my + 1,
            r0 == row - my,
            gh == (2 * my + 1) as nat,
            k <= height,
            forall|u: int|
                0 <= u < num_bins ==> col_eq(*b, ct as int, r0, gh, u) <= (#[trigger] old(
                    histo,
                )@[u]),
            col_valid(*b, ct as int, r0, gh) <= *old(n),
            col_less(*b, ct as int, r0, gh, cmp as int) <= *old(n_less),
            forall|u: int|
                0 <= u < num_bins ==> (#[trigger] histo@[u]) == old(histo)@[u] - col_eq(
                    *b,
                    ct as int,
                    r0,
                    k as nat,
                    u,
                ),
            *n == *old(n) - col_valid(*b, ct as int, r0, k as nat),
            *n_less == *old(n_less) - col_less(*b, ct as int, r0, k as nat, cmp as int),
        decreases height - k,
    {
        let r2: i64 = row as i64 - my as i64 + k as i64;
        let v = b.get(r2, ct);
        proof {
            assert(r2 as int == r0 + k);
            assert(col_eq(*b, ct as int, r0, (k + 1) as nat, v as int) == col_eq(
                *b,
                ct as int,
                r0,
                k as nat,
                v as int,
            ) + if b.cell(r0 + k, ct as int) == v {
                1int
            } else {
                0int
            });
            lemma_col_mono(*b, ct as int, r0, (k + 1) as nat, gh, cmp as int, v as int);
        }
        if v != BIN_NODATA {
            let vi = v as usize;
            proof {
                assert(0 <= v < num_bins);
                lemma_col_mono(*b, ct as int, r0, (k + 1) as nat, gh, cmp as int, v as int);
                lemma_col_bounds(*b, ct as int, r0, k as nat, cmp as int, v as int);
            }
            let hv = histo[vi];
            histo[vi] = hv - 1;
            *n = *n - 1;
            if v < cmp {
                *n_less = *n_less - 1;
            }
        }
        proof {
            assert forall|u: int| 0 <= u < num_bins implies (#[trigger] histo@[u]) == old(
                histo,
            )@[u] - col_eq(*b, ct as int, r0, (k + 1) as nat, u) by {
                assert(col_eq(*b, ct as int, r0, (k + 1) as nat, u) == col_eq(
                    *b,
                    ct as int,
                    r0,
                    k as nat,
                    u,
                ) + if b.cell(r0 + k, ct as int) == u {
                    1int
                } else {
                    0int
                });
            }
            assert(col_valid(*b, ct as int, r0, (k + 1) as nat) == col_valid(
                *b,
                ct as int,
                r0,
                k as nat,
            ) + if b.cell(r0 + k, ct as int) != BIN_NODATA {
                1int
            } else {
                0int
            });
            assert(col_less(*b, ct as int, r0, (k + 1) as nat, cmp as int) == col_less(
                *b,
                ct as int,
                r0,
                k as nat,
                cmp as int,
            ) + if b.cell(r0 + k, ct as int) != BIN_NODATA && b.cell(r0 + k, ct as int)
                < cmp as int {
                1int
            } else {
                0int
            });
        }
        k = k + 1;
    }
}

/// Adds one column of the window to the running histogram state.
fn add_column(
    b: &Grid2D,
    histo: &mut Vec<u64>,
    n: &mut u64,
    n_less: &mut u64,
    ca: i64,
    row: usize,
    my: usize,
    cmp: i64,
    num_bins: usize,
)
    requires
        bins_ok(*b, num_bins as int),
        old(histo)@.len() == num_bins,
        row < b.rows(),
        my as u64 <= MAX_MID,
        forall|u: int|
            0 <= u < num_bins ==> (#[trigger] old(histo)@[u]) + 2 * my + 1 <= u64::MAX,
        *old(n) + 2 * my + 1 <= u64::MAX,
        *old(n_less) + 2 * my + 1 <= u64::MAX,
    ensures
        final(histo)@.len() == num_bins,
        forall|u: int|
            0 <= u < num_bins ==> (#[trigger] final(histo)@[u]) == old(histo)@[u] + col_eq(
                *b,
                ca as int,
                row - my,
                (2 * my + 1) as nat,
                u,
            ),
        *final(n) == *old(n) + col_valid(*b, ca as int, row - my, (2 * my + 1) as nat),
        *final(n_less) == *old(n_less) + col_less(*b, ca as int, row - my, (2 * my + 1) as nat, cmp as int),
{
    proof {
        b.lemma_wf_dims();
    }
    let ghost r0 = row - my;
    let ghost gh = (2 * my + 1) as nat;
    let height: usize = 2 * my + 1;
    let mut k: usize = 0;
    while k < height
        invariant
            bins_ok(*b, num_bins as int),
            histo@.len() == num_bins,
            row < b.rows(),
            b.rows() < crate::grid::MAX_EXTENT,
            my as u64 <= MAX_MID,
            height == 2 * my + 1,
            r0 == row - my,
            gh == (2 * my + 1) as nat,
            k <= height,
            forall|u: int|
                0 <= u < num_bins ==> (#[trigger] old(histo)@[u]) + 2 * my + 1 <= u64::MAX,
            *old(n) + 2 * my + 1 <= u64::MAX,
            *old(n_less) + 2 * my + 1 <= u64::MAX,
            forall|u: int|
                0 <= u < num_bins ==> (#[trigger] histo@[u]) == old(histo)@[u] + col_eq(
                    *b,
                    ca as int,
                    r0,
                    k as nat,
                    u,
                ),
            *n == *old(n) + col_valid(*b, ca as int, r0, k as nat),
            *n_less == *old(n_less) + col_less(*b, ca as int, r0, k as nat, cmp as int),
        decreases height - k,
    {
        let r2: i64 = row as i64 - my as i64 + k as i64;
        let v = b.get(r2, ca);
        proof {
            assert(r2 as int == r0 + k);
            lemma_col_bounds(*b, ca as int, r0, k as nat, cmp as int, v as int);
        }
        if v != BIN_NODATA {
            let vi = v as usize;
            proof {
                assert(0 <= v < num_bins);
            }
            let hv = histo[vi];
            histo[vi] = hv + 1;
            *n = *n + 1;
            if v < cmp {
                *n_less = *n_less + 1;
            }
        }
        proof {
            assert forall|u: int| 0 <= u < num_bins implies (#[trigger] histo@[u]) == old(
                histo,
            )@[u] + col_eq(*b, ca as int, r0, (k + 1) as nat, u) by {
                assert(col_eq(*b, ca as int, r0, (k + 1) as nat, u) == col_eq(
                    *b,
                    ca as int,
                    r0,
                    k as nat,
                    u,
                ) + if b.cell(r0 + k, ca as int) == u {
                    1int
                } else {
                    0int
                });
            }
            assert(col_valid(*b, ca as int, r0, (k + 1) as nat) == col_valid(
                *b,
                ca as int,
                r0,
                k as nat,
            ) + if b.cell(r0 + k, ca as int) != BIN_NODATA {
                1int
            } else {
                0int
            });
            assert(col_less(*b, ca as int, r0, (k + 1) as nat, cmp as int) == col_less(
                *b,
                ca as int,
                r0,
                k as nat,
                cmp as int,
            ) + if b.cell(r0 + k, ca as int) != BIN_NODATA && b.cell(r0 + k, ca as int)
                < cmp as int {
                1int
            } else {
                0int
            });
        }
        k = k + 1;
    }
}

/// Stage B for one output row: the sliding-window percentile pass.
///
/// Walks the row left to right keeping `(histo, n, n_less)` for the
/// window around the previous valid cell: after a nodata centre the
/// histogram is rebuilt from scratch; otherwise the trailing column is
/// removed, the leading column added (both counted against the previous
/// reference bin), and the reference then shifted by the histogram mass
/// between the two bins.  Rows are independent, so callers may compute
/// them in any order or in parallel.
#[verifier::loop_isolation(false)]
pub fn percentile_row(b: &Grid2D, row: usize, mx: usize, my: usize, num_bins: usize) -> (out: Vec<
    RankCell,
>)
    requires
        bins_ok(*b, num_bins as int),
        row < b.rows(),
        1 <= mx && mx as u64 <= MAX_MID,
        1 <= my && my as u64 <= MAX_MID,
        num_bins as u64 <= MAX_BINS,
    ensures
        out@.len() == b.cols(),
        forall|c: int|
            0 <= c < b.cols() ==> #[trigger] out@[c] == spec_rank_cell(
                *b,
                row as int,
                c,
                mx as nat,
                my as nat,
            ),
{
    proof {
        b.lemma_wf_dims();
        lemma_window_area(mx as nat, my as nat);
    }
    let cols = b.num_cols();
    let mut histo = zeros(num_bins);
    let mut n: u64 = 0;
    let mut n_less: u64 = 0;
    let mut old_ref: i64 = BIN_NODATA;
    let mut out: Vec<RankCell> = Vec::new();
    let ghost gw: nat = (2 * mx + 1) as nat;
    let ghost gh: nat = (2 * my + 1) as nat;
    let ghost r0: int = row - my;
    let mut c: usize = 0;
    while c < cols
        invariant
            c <= cols,
            out@.len() == c,
            forall|c2: int|
                0 <= c2 < c ==> #[trigger] out@[c2] == spec_rank_cell(
                    *b,
                    row as int,
                    c2,
                    mx as nat,
                    my as nat,
                ),
            histo@.len() == num_bins,
            old_ref == if c == 0 {
                BIN_NODATA
            } else {
                b.cell(row as int, c - 1)
            },
            old_ref != BIN_NODATA ==> 0 <= old_ref < num_bins,
            old_ref != BIN_NODATA ==> forall|u: int|
                0 <= u < num_bins ==> (#[trigger] histo@[u]) == win_eq(
                    *b,
                    c - 1 - mx,
                    gw,
                    r0,
                    gh,
                    u,
                ),
            old_ref != BIN_NODATA ==> n == win_valid(*b, c - 1 - mx, gw, r0, gh),
            old_ref != BIN_NODATA ==> n_less == win_less(
                *b,
                c - 1 - mx,
                gw,
                r0,
                gh,
                old_ref as int,
            ),
        decreases cols - c,
    {
        let rf = b.get(row as i64, c as i64);
        if rf != BIN_NODATA {
            proof {
                assert(b.cell(row as int, c as int) == BIN_NODATA || (0 <= b.cell(
                    row as int,
                    c as int,
                ) < num_bins));
            }
            if old_ref != BIN_NODATA {
                let ghost pc0: int = c - 1 - mx;
                let ct: i64 = c as i64 - mx as i64 - 1;
                let ca: i64 = c as i64 + mx as i64;
                proof {
                    assert(ct as int == pc0);
                    assert forall|u: int| 0 <= u < num_bins implies col_eq(
                        *b,
                        ct as int,
                        r0,
                        gh,
                        u,
                    ) <= (#[trigger] histo@[u]) by {
                        lemma_col_within_win(*b, pc0, gw, r0, gh, ct as int, old_ref as int, u);
                    }
                    lemma_col_within_win(*b, pc0, gw, r0, gh, ct as int, old_ref as int, 0);
                }
                remove_column(b, &mut histo, &mut n, &mut n_less, ct, row, my, old_ref, num_bins);
                proof {
                    assert forall|u: int| 0 <= u < num_bins implies (#[trigger] histo@[u]) + 2 * my
                        + 1 <= u64::MAX by {
                        lemma_win_bounds(*b, pc0, gw, r0, gh, old_ref as int, u);
                        lemma_col_bounds(*b, ct as int, r0, gh, old_ref as int, u);
                    }
                    lemma_win_bounds(*b, pc0, gw, r0, gh, old_ref as int, 0);
                    lemma_col_bounds(*b, ct as int, r0, gh, old_ref as int, 0);
                }
                add_column(b, &mut histo, &mut n, &mut n_less, ca, row, my, old_ref, num_bins);
                proof {
                    assert(ca as int == pc0 + gw);
                    assert forall|u: int| 0 <= u < num_bins implies (#[trigger] histo@[u])
                        == win_eq(*b, c - mx, gw, r0, gh, u) by {
                        lemma_win_slide(*b, pc0, gw, r0, gh, old_ref as int, u);
                    }
                    lemma_win_slide(*b, pc0, gw, r0, gh, old_ref as int, 0);
                    assert(n == win_valid(*b, c - mx, gw, r0, gh));
                    assert(n_less == win_less(*b, c - mx, gw, r0, gh, old_ref as int));
                }
                let ghost nc0: int = c - mx;
                if old_ref < rf {
                    let mut m: u64 = 0;
                    let mut v: i64 = old_ref;
                    while v < rf
                        invariant
                            old_ref <= v <= rf,
                            m == win_prefix(*b, nc0, gw, r0, gh, v as nat) - win_prefix(
                                *b,
                                nc0,
                                gw,
                                r0,
                                gh,
                                old_ref as nat,
                            ),
                        decreases rf - v,
                    {
                        proof {
                            assert(win_prefix(*b, nc0, gw, r0, gh, (v + 1) as nat) == win_prefix(
                                *b,
                                nc0,
                                gw,
                                r0,
                                gh,
                                v as nat,
                            ) + win_eq(*b, nc0, gw, r0, gh, v as int));
                            lemma_win_prefix_mono(
                                *b,
                                nc0,
                                gw,
                                r0,
                                gh,
                                (v + 1) as nat,
                                num_bins as nat,
                            );
                            lemma_win_prefix_nonneg(*b, nc0, gw, r0, gh, old_ref as nat);
                            lemma_histogram_total(*b, num_bins as nat, nc0, gw, r0, gh);
                            lemma_win_bounds(*b, nc0, gw, r0, gh, 0, v as int);
                        }
                        m = m + histo[v as usize];
                        v = v + 1;
                    }
                    proof {
                        lemma_histogram_less(*b, num_bins as int, nc0, gw, r0, gh, rf as nat);
                        lemma_histogram_less(*b, num_bins as int, nc0, gw, r0, gh, old_ref as nat);
                        lemma_win_bounds(*b, nc0, gw, r0, gh, rf as int, 0);
                    }
                    n_less = n_less + m;
                } else if old_ref > rf {
                    let mut m: u64 = 0;
                    let mut v: i64 = rf;
                    while v < old_ref
                        invariant
                            rf <= v <= old_ref,
                            m == win_prefix(*b, nc0, gw, r0, gh, v as nat) - win_prefix(
                                *b,
                                nc0,
                                gw,
                                r0,
                                gh,
                                rf as nat,
                            ),
                        decreases old_ref - v,
                    {
                        proof {
                            assert(win_prefix(*b, nc0, gw, r0, gh, (v + 1) as nat) == win_prefix(
                                *b,
                                nc0,
                                gw,
                                r0,
                                gh,
                                v as nat,
                            ) + win_eq(*b, nc0, gw, r0, gh, v as int));
                            lemma_win_prefix_mono(
                                *b,
                                nc0,
                                gw,
                                r0,
                                gh,
                                (v + 1) as nat,
                                num_bins as nat,
                            );
                            lemma_win_prefix_nonneg(*b, nc0, gw, r0, gh, rf as nat);
                            lemma_histogram_total(*b, num_bins as nat, nc0, gw, r0, gh);
                            lemma_win_bounds(*b, nc0, gw, r0, gh, 0, v as int);
                        }
                        m = m + histo[v as usize];
                        v = v + 1;
                    }
                    proof {
                        lemma_histogram_less(*b, num_bins as int, nc0, gw, r0, gh, rf as nat);
                        lemma_histogram_less(*b, num_bins as int, nc0, gw, r0, gh, old_ref as nat);
                        lemma_win_prefix_mono(*b, nc0, gw, r0, gh, rf as nat, old_ref as nat);
                        lemma_win_prefix_nonneg(*b, nc0, gw, r0, gh, rf as nat);
                    }
                    n_less = n_less - m;
                }
            } else {
                zero_histo(&mut histo);
                n = 0;
                n_less = 0;
                let width: usize = 2 * mx + 1;
                let mut j: usize = 0;
                while j < width
                    invariant
                        j <= width,
                        histo@.len() == num_bins,
                        forall|u: int|
                            0 <= u < num_bins ==> (#[trigger] histo@[u]) == win_eq(
                                *b,
                                c - mx,
                                j as nat,
                                r0,
                                gh,
                                u,
                            ),
                        n == win_valid(*b, c - mx, j as nat, r0, gh),
                        n_less == win_less(*b, c - mx, j as nat, r0, gh, rf as int),
                    decreases width - j,
                {
                    proof {
                        let jn = j as nat;
                        assert(jn * gh <= gw * gh) by (nonlinear_arith)
                            requires
                                jn <= gw,
                                0 <= gh,
                        ;
                        assert forall|u: int| 0 <= u < num_bins implies (#[trigger] histo@[u]) + 2
                            * my + 1 <= u64::MAX by {
                            lemma_win_bounds(*b, c - mx, j as nat, r0, gh, rf as int, u);
                        }
                        lemma_win_bounds(*b, c - mx, j as nat, r0, gh, rf as int, 0);
                    }
                    let cj: i64 = c as i64 - mx as i64 + j as i64;
                    add_column(b, &mut histo, &mut n, &mut n_less, cj, row, my, rf, num_bins);
                    proof {
                        assert(cj as int == c - mx + j);
                        assert forall|u: int| 0 <= u < num_bins implies (#[trigger] histo@[u])
                            == win_eq(*b, c - mx, (j + 1) as nat, r0, gh, u) by {
                            assert(win_eq(*b, c - mx, (j + 1) as nat, r0, gh, u) == win_eq(
                                *b,
                                c - mx,
                                j as nat,
                                r0,
                                gh,
                                u,
                            ) + col_eq(*b, c - mx + j, r0, gh, u));
                        }
                        assert(win_valid(*b, c - mx, (j + 1) as nat, r0, gh) == win_valid(
                            *b,
                            c - mx,
                            j as nat,
                            r0,
                            gh,
                        ) + col_valid(*b, c - mx + j, r0, gh));
                        assert(win_less(*b, c - mx, (j + 1) as nat, r0, gh, rf as int) == win_less(
                            *b,
                            c - mx,
                            j as nat,
                            r0,
                            gh,
                            rf as int,
                        ) + col_less(*b, c - mx + j, r0, gh, rf as int));
                    }
                    j = j + 1;
                }
            }
            proof {
                lemma_win_bounds(*b, c - mx, gw, r0, gh, rf as int, 0);
            }
            out.push(RankCell::Rank { n_less, n });
        } else {
            out.push(RankCell::Nodata);
        }
        old_ref = rf;
        c = c + 1;
    }
    out
}

/// Stage B over every row.  Rows are mutually independent, so this
/// sequential driver and any parallel row-block schedule produce the
/// same output (see `lemma_percentile_deterministic`).
pub fn percentile_grid(b: &Grid2D, mx: usize, my: usize, num_bins: usize) -> (out: Vec<
    Vec<RankCell>,
>)
    requires
        bins_ok(*b, num_bins as int),
        1 <= mx && mx as u64 <= MAX_MID,
        1 <= my && my as u64 <= MAX_MID,
        num_bins as u64 <= MAX_BINS,
    ensures
        out@.len() == b.rows(),
        forall|r: int| 0 <= r < b.rows() ==> (#[trigger] out@[r])@.len() == b.cols(),
        forall|r: int, c: int|
            0 <= r < b.rows() && 0 <= c < b.cols() ==> (#[trigger] out@[r]@[c]) == spec_rank_cell(
                *b,
                r,
                c,
                mx as nat,
                my as nat,
            ),
{
    proof {
        b.lemma_wf_dims();
    }
    let rows = b.num_rows();
    let mut out: Vec<Vec<RankCell>> = Vec::new();
    let mut r: usize = 0;
    while r < rows
        invariant
            bins_ok(*b, num_bins as int),
            1 <= mx && mx as u64 <= MAX_MID,
            1 <= my && my as u64 <= MAX_MID,
            num_bins as u64 <= MAX_BINS,
            rows == b.rows(),
            r <= rows,
            out@.len() == r,
            forall|r2: int| 0 <= r2 < r ==> (#[trigger] out@[r2])@.len() == b.cols(),
            forall|r2: int, c: int|
                0 <= r2 < r && 0 <= c < b.cols() ==> (#[trigger] out@[r2]@[c]) == spec_rank_cell(
                    *b,
                    r2,
                    c,
                    mx as nat,
                    my as nat,
                ),
        decreases rows - r,
    {
        let row_out = percentile_row(b, r, mx, my, num_bins);
        out.push(row_out);
        r = r + 1;
    }
    out
}

// ---------------------------------------------------------------------
// Laws.
// ---------------------------------------------------------------------

/// The window counts read the grid only through `cell`, so two grids
/// that read alike everywhere count alike.
pub proof fn lemma_col_congruent(g1: Grid2D, g2: Grid2D, c2: int, r0: int, h: nat, rf: int, v: int)
    requires
        forall|r: int, c: int| #[trigger] g1.cell(r, c) == g2.cell(r, c),
    ensures
        col_valid(g1, c2, r0, h) == col_valid(g2, c2, r0, h),
        col_less(g1, c2, r0, h, rf) == col_less(g2, c2, r0, h, rf),
        col_eq(g1, c2, r0, h, v) == col_eq(g2, c2, r0, h, v),
    decreases h,
{
    if h > 0 {
        lemma_col_congruent(g1, g2, c2, r0, (h - 1) as nat, rf, v);
    }
}

pub proof fn lemma_win_congruent(
    g1: Grid2D,
    g2: Grid2D,
    c0: int,
    w: nat,
    r0: int,
    h: nat,
    rf: int,
    v: int,
)
    requires
        forall|r: int, c: int| #[trigger] g1.cell(r, c) == g2.cell(r, c),
    ensures
        win_valid(g1, c0, w, r0, h) == win_valid(g2, c0, w, r0, h),
        win_less(g1, c0, w, r0, h, rf) == win_less(g2, c0, w, r0, h, rf),
        win_eq(g1, c0, w, r0, h, v) == win_eq(g2, c0, w, r0, h, v),
    decreases w,
{
    if w > 0 {
        lemma_win_congruent(g1, g2, c0, (w - 1) as nat, r0, h, rf, v);
        lemma_col_congruent(g1, g2, c0 + w - 1, r0, h, rf, v);
    }
}

/// Determinism: the specified output cell is a function of the grid's
/// reads and the kernel alone, so repeated runs — and any split of the
/// rows across workers — produce bit-identical output.
pub proof fn lemma_rank_congruent(g1: Grid2D, g2: Grid2D, r: int, c: int, mx: nat, my: nat)
    requires
        forall|r2: int, c2: int| #[trigger] g1.cell(r2, c2) == g2.cell(r2, c2),
    ensures
        spec_rank_cell(g1, r, c, mx, my) == spec_rank_cell(g2, r, c, mx, my),
{
    lemma_win_congruent(
        g1,
        g2,
        c - mx,
        (2 * mx + 1) as nat,
        r - my,
        (2 * my + 1) as nat,
        g1.cell(r, c) as int,
        0,
    );
}

/// Determinism at the output level: two row sets that both satisfy the
/// percentile pass's contract are equal.
pub proof fn lemma_percentile_deterministic(
    b: Grid2D,
    mx: nat,
    my: nat,
    o1: Seq<Seq<RankCell>>,
    o2: Seq<Seq<RankCell>>,
)
    requires
        o1.len() == b.rows(),
        o2.len() == b.rows(),
        forall|r: int| 0 <= r < b.rows() ==> (#[trigger] o1[r]).len() == b.cols(),
        forall|r: int| 0 <= r < b.rows() ==> (#[trigger] o2[r]).len() == b.cols(),
        forall|r: int, c: int|
            0 <= r < b.rows() && 0 <= c < b.cols() ==> (#[trigger] o1[r][c]) == spec_rank_cell(
                b,
                r,
                c,
                mx,
                my,
            ),
        forall|r: int, c: int|
            0 <= r < b.rows() && 0 <= c < b.cols() ==> (#[trigger] o2[r][c]) == spec_rank_cell(
                b,
                r,
                c,
                mx,
                my,
            ),
    ensures
        o1 == o2,
{
    assert forall|r: int| 0 <= r < o1.len() implies #[trigger] o1[r] == o2[r] by {
        assert(o1[r] =~= o2[r]);
    }
    assert(o1 =~= o2);
}

/// End-to-end determinism: two runs of the whole percentile tool over
/// one scaled grid — whatever bin grids they materialised and however
/// their rows were scheduled — produce identical output.
pub proof fn lemma_elev_outputs_agree(
    z: Grid2D,
    min_bin: i64,
    mx: nat,
    my: nat,
    bg1: Grid2D,
    bg2: Grid2D,
    o1: Seq<Seq<RankCell>>,
    o2: Seq<Seq<RankCell>>,
)
    requires
        forall|r: int, c: int| #[trigger] bg1.cell(r, c) == spec_bin_cell(z, min_bin, r, c),
        forall|r: int, c: int| #[trigger] bg2.cell(r, c) == spec_bin_cell(z, min_bin, r, c),
        o1.len() == z.rows(),
        o2.len() == z.rows(),
        forall|r: int| 0 <= r < z.rows() ==> (#[trigger] o1[r]).len() == z.cols(),
        forall|r: int| 0 <= r < z.rows() ==> (#[trigger] o2[r]).len() == z.cols(),
        forall|r: int, c: int|
            0 <= r < z.rows() && 0 <= c < z.cols() ==> (#[trigger] o1[r][c]) == spec_rank_cell(
                bg1,
                r,
                c,
                mx,
                my,
            ),
        forall|r: int, c: int|
            0 <= r < z.rows() && 0 <= c < z.cols() ==> (#[trigger] o2[r][c]) == spec_rank_cell(
                bg2,
                r,
                c,
                mx,
                my,
            ),
    ensures
        o1 == o2,
{
    assert forall|r: int, c: int|
        0 <= r < z.rows() && 0 <= c < z.cols() implies (#[trigger] o1[r][c]) == o2[r][c] by {
        lemma_rank_congruent(bg1, bg2, r, c, mx, my);
    }
    assert forall|r: int| 0 <= r < o1.len() implies #[trigger] o1[r] == o2[r] by {
        assert(o1[r] =~= o2[r]);
    }
    assert(o1 =~= o2);
}

pub proof fn lemma_col_less_flat(g: Grid2D, bv: i64, c2: int, r0: int, h: nat)
    requires
        forall|r: int, c: int|
            #[trigger] g.cell(r, c) == BIN_NODATA || g.cell(r, c) == bv,
    ensures
        col_less(g, c2, r0, h, bv as int) == 0,
    decreases h,
{
    if h > 0 {
        lemma_col_less_flat(g, bv, c2, r0, (h - 1) as nat);
        assert(g.cell(r0 + h - 1, c2) == BIN_NODATA || g.cell(r0 + h - 1, c2) == bv);
    }
}

pub proof fn lemma_win_less_flat(g: Grid2D, bv: i64, c0: int, w: nat, r0: int, h: nat)
    requires
        forall|r: int, c: int|
            #[trigger] g.cell(r, c) == BIN_NODATA || g.cell(r, c) == bv,
    ensures
        win_less(g, c0, w, r0, h, bv as int) == 0,
    decreases w,
{
    if w > 0 {
        lemma_win_less_flat(g, bv, c0, (w - 1) as nat, r0, h);
        lemma_col_less_flat(g, bv, c0 + w - 1, r0, h);
    }
}

/// Flat-surface law: on a grid whose every read is either nodata or one
/// fixed bin `bv`, a valid centre cell ranks strictly above nothing, so
/// its output pair is `(0, n)` with `n >= 1` — percentile rank 0, never
/// 100.  This pins the strictly-less-than comparator.
pub proof fn lemma_flat_surface(g: Grid2D, bv: i64, r: int, c: int, mx: nat, my: nat)
    requires
        forall|r2: int, c2: int|
            #[trigger] g.cell(r2, c2) == BIN_NODATA || g.cell(r2, c2) == bv,
        g.cell(r, c) == bv,
        bv != BIN_NODATA,
    ensures
        spec_rank_cell(g, r, c, mx, my) == (RankCell::Rank {
            n_less: 0u64,
            n: win_valid(g, c - mx, (2 * mx + 1) as nat, r - my, (2 * my + 1) as nat) as u64,
        }),
        win_valid(g, c - mx, (2 * mx + 1) as nat, r - my, (2 * my + 1) as nat) >= 1,
{
    lemma_win_less_flat(g, bv, c - mx, (2 * mx + 1) as nat, r - my, (2 * my + 1) as nat);
    lemma_center_counted(g, c - mx, (2 * mx + 1) as nat, r - my, (2 * my + 1) as nat, r, c);
}

/// In-bounds cell reads of a column-graded ramp grid.
pub open spec fn ramp_grid(g: Grid2D) -> bool {
    &&& forall|r2: int, c2: int|
        g.in_bounds(r2, c2) ==> #[trigger] g.cell(r2, c2) != BIN_NODATA
    &&& forall|r1: int, r2: int, c2: int|
        g.in_bounds(r1, c2) && g.in_bounds(r2, c2) ==> #[trigger] g.cell(r1, c2) == #[trigger] g.cell(
            r2,
            c2,
        )
    &&& forall|r2: int, c1: int, c2: int|
        g.in_bounds(r2, c1) && g.in_bounds(r2, c2) && c1 < c2 ==> #[trigger] g.cell(r2, c1)
            < #[trigger] g.cell(r2, c2)
}

pub proof fn lemma_col_ramp(g: Grid2D, r: int, c: int, c2: int, r0: int, h: nat)
    requires
        ramp_grid(g),
        g.in_bounds(r, c),
        0 <= r0,
        r0 + h <= g.rows(),
        0 <= c2 < g.cols(),
    ensures
        col_valid(g, c2, r0, h) == h,
        col_less(g, c2, r0, h, g.cell(r, c) as int) == if c2 < c {
            h as int
        } else {
            0
        },
    decreases h,
{
    if h > 0 {
        lemma_col_ramp(g, r, c, c2, r0, (h - 1) as nat);
        let rr = r0 + h - 1;
        assert(g.cell(rr, c2) == g.cell(r, c2));
        if c2 < c {
            assert(g.cell(r, c2) < g.cell(r, c));
        } else if c2 > c {
            assert(g.cell(r, c) < g.cell(r, c2));
        }
    }
}

pub proof fn lemma_win_ramp(g: Grid2D, r: int, c: int, c0: int, w: nat, r0: int, h: nat)
    requires
        ramp_grid(g),
        g.in_bounds(r, c),
        0 <= r0,
        r0 + h <= g.rows(),
        0 <= c0,
        c0 + w <= g.cols(),
        c0 + w <= c,
    ensures
        win_valid(g, c0, w, r0, h) == w * h,
        win_less(g, c0, w, r0, h, g.cell(r, c) as int) == w * h,
    decreases w,
{
    if w > 0 {
        lemma_win_ramp(g, r, c, c0, (w - 1) as nat, r0, h);
        lemma_col_ramp(g, r, c, c0 + w - 1, r0, h);
        let w1 = (w - 1) as nat;
        assert(w * h == w1 * h + h) by (nonlinear_arith)
            requires
                w >= 1,
                w1 == w - 1,
        ;
    }
}

pub proof fn lemma_win_ramp_right(g: Grid2D, r: int, c: int, c0: int, w: nat, r0: int, h: nat)
    requires
        ramp_grid(g),
        g.in_bounds(r, c),
        0 <= r0,
        r0 + h <= g.rows(),
        0 <= c0,
        c0 + w <= g.cols(),
        c <= c0,
    ensures
        win_valid(g, c0, w, r0, h) == w * h,
        win_less(g, c0, w, r0, h, g.cell(r, c) as int) == 0,
    decreases w,
{
    if w > 0 {
        lemma_win_ramp_right(g, r, c, c0, (w - 1) as nat, r0, h);
        lemma_col_ramp(g, r, c, c0 + w - 1, r0, h);
        let w1 = (w - 1) as nat;
        assert(w * h == w1 * h + h) by (nonlinear_arith)
            requires
                w >= 1,
                w1 == w - 1,
        ;
    }
}

/// Monotone-ramp law: on a grid whose values are a strictly increasing
/// function of the column alone, an interior cell's window holds
/// `(2*mx+1)*(2*my+1)` valid cells of which exactly the `mx` columns to
/// the left — `mx * (2*my+1)` cells — rank strictly below the centre.
/// The centre of a symmetric window therefore sits at the same rank for
/// every such ramp, which pins the strictly-less-than semantics.
pub proof fn lemma_monotone_ramp(g: Grid2D, r: int, c: int, mx: nat, my: nat)
    requires
        ramp_grid(g),
        0 <= r - my,
        r + my < g.rows(),
        0 <= c - mx,
        c + mx < g.cols(),
    ensures
        spec_rank_cell(g, r, c, mx, my) == (RankCell::Rank {
            n_less: (mx * (2 * my + 1)) as u64,
            n: ((2 * mx + 1) * (2 * my + 1)) as u64,
        }),
{
    let gw = (2 * mx + 1) as nat;
    let gh = (2 * my + 1) as nat;
    let r0 = r - my;
    let c0 = c - mx;
    assert(g.in_bounds(r, c));
    assert(g.cell(r, c) != BIN_NODATA);
    // left part: the mx columns strictly left of c
    lemma_win_ramp(g, r, c, c0, mx, r0, gh);
    // right part: column c and the mx columns right of it
    lemma_win_ramp_right(g, r, c, c, (mx + 1) as nat, r0, gh);
    // stitch the two via repeated left-unfolding
    lemma_win_split_at(g, c0, mx, (mx + 1) as nat, r0, gh, g.cell(r, c) as int);
    assert(mx * gh + (mx + 1) * gh == gw * gh) by (nonlinear_arith)
        requires
            gw == 2 * mx + 1,
    ;
}

/// A window sum splits at any interior column boundary.
pub proof fn lemma_win_split_at(
    g: Grid2D,
    c0: int,
    w1: nat,
    w2: nat,
    r0: int,
    h: nat,
    rf: int,
)
    ensures
        win_valid(g, c0, (w1 + w2) as nat, r0, h) == win_valid(g, c0, w1, r0, h) + win_valid(
            g,
            c0 + w1,
            w2,
            r0,
            h,
        ),
        win_less(g, c0, (w1 + w2) as nat, r0, h, rf) == win_less(g, c0, w1, r0, h, rf) + win_less(
            g,
            c0 + w1,
            w2,
            r0,
            h,
            rf,
        ),
    decreases w2,
{
    if w2 == 0 {
    } else {
        lemma_win_split_at(g, c0, w1, (w2 - 1) as nat, r0, h, rf);
        assert(win_valid(g, c0, (w1 + w2) as nat, r0, h) == win_valid(
            g,
            c0,
            (w1 + w2 - 1) as nat,
            r0,
            h,
        ) + col_valid(g, c0 + w1 + w2 - 1, r0, h));
        assert(win_valid(g, c0 + w1, w2, r0, h) == win_valid(g, c0 + w1, (w2 - 1) as nat, r0, h)
            + col_valid(g, c0 + w1 + w2 - 1, r0, h));
        assert(win_less(g, c0, (w1 + w2) as nat, r0, h, rf) == win_less(
            g,
            c0,
            (w1 + w2 - 1) as nat,
            r0,
            h,
            rf,
        ) + col_less(g, c0 + w1 + w2 - 1, r0, h, rf));
        assert(win_less(g, c0 + w1, w2, r0, h, rf) == win_less(
            g,
            c0 + w1,
            (w2 - 1) as nat,
            r0,
            h,
            rf,
        ) + col_less(g, c0 + w1 + w2 - 1, r0, h, rf));
    }
}

// ---------------------------------------------------------------------
// Filter-size normalisation.
// ---------------------------------------------------------------------

/// Kernel sizes below 3 are clamped to 3 and even sizes rounded up by 1,
/// so every kernel is odd with a middle cell.
pub open spec fn spec_adjust_filter(s: int) -> int {
    let t = if s < 3 {
        3int
    } else {
        s
    };
    if t % 2 == 0 {
        t + 1
    } else {
        t
    }
}

/// The whole elevation-percentile computation: normalise the kernel,
/// bin the scaled grid, then run the sliding-window pass.  `min_bin` is
/// `floor(min * 10^d)` for the raster's declared minimum and `num_bins`
/// the declared bin count; a scaled value binning outside `[0,
/// num_bins)` is rejected as an invariant violation before any window
/// work.  On success the output is pinned, cell by cell, to the rank
/// pairs of the bin grid determined by `spec_bin_cell` — see
/// `lemma_rank_congruent` for why that determines it uniquely.
pub fn elev_percentile(
    z: &Grid2D,
    min_bin: i64,
    num_bins: usize,
    filter_x: usize,
    filter_y: usize,
) -> (res: Result<Vec<Vec<RankCell>>, CoreError>)
    requires
        z.wf(),
        num_bins as u64 <= MAX_BINS,
        filter_x as u64 <= 2 * MAX_MID,
        filter_y as u64 <= 2 * MAX_MID,
    ensures
        res is Ok <==> grid_bins_ok(*z, min_bin, num_bins as int),
        res is Err ==> res == Result::<Vec<Vec<RankCell>>, CoreError>::Err(
            CoreError::InvariantViolation,
        ),
        res matches Ok(out) ==> exists|bg: Grid2D|
            {
                &&& #[trigger] bins_ok(bg, num_bins as int)
                &&& forall|r: int, c: int|
                    #[trigger] bg.cell(r, c) == spec_bin_cell(*z, min_bin, r, c)
                &&& out@.len() == z.rows()
                &&& forall|r: int| 0 <= r < z.rows() ==> (#[trigger] out@[r])@.len() == z.cols()
                &&& forall|r: int, c: int|
                    0 <= r < z.rows() && 0 <= c < z.cols() ==> (#[trigger] out@[r]@[c])
                        == spec_rank_cell(
                        bg,
                        r,
                        c,
                        (spec_adjust_filter(filter_x as int) / 2) as nat,
                        (spec_adjust_filter(filter_y as int) / 2) as nat,
                    )
            },
{
    let fx = adjust_filter_size(filter_x);
    let fy = adjust_filter_size(filter_y);
    let mx = fx / 2;
    let my = fy / 2;
    let binned = bin_grid(z, min_bin, num_bins)?;
    let out = percentile_grid(&binned, mx, my, num_bins);
    proof {
        assert(bins_ok(binned, num_bins as int));
    }
    Ok(out)
}

pub fn adjust_filter_size(s: usize) -> (r: usize)
    requires
        s as u64 <= 2 * MAX_MID,
    ensures
        r == spec_adjust_filter(s as int),
        3 <= r,
        r % 2 == 1,
        r as u64 <= 2 * MAX_MID + 1,
{
    let t = if s < 3 {
        3
    } else {
        s
    };
    if t % 2 == 0 {
        t + 1
    } else {
        t
    }
}

} // verus!
