//! Dense 2D grid with nodata sentinels and row-major access.
//!
//! Reads outside the grid return the input sentinel (clamp-to-nodata), so
//! window scans that run over the boundary see nodata instead of failing.
//! Writes outside the grid are an error.

use vstd::prelude::*;

use crate::CoreError;

verus! {

/// Largest accepted extent along one axis.  Keeps row and column counts
/// comfortably inside `i64`, so signed window coordinates never overflow.
pub const MAX_EXTENT: u64 = 0x4000_0000_0000_0000;

/// A rectangular `rows x cols` array of `i64` cells plus two sentinel
/// values.  Coordinates are `(row, col)` with row 0 at the north edge and
/// column 0 at the west.  Every element is either a valid datum or exactly
/// a sentinel; reads outside the bounds return `nodata_in`.
pub struct Grid2D {
    nrows: usize,
    ncols: usize,
    nd_in: i64,
    nd_out: i64,
    cells: Vec<Vec<i64>>,
}

impl Grid2D {
    pub closed spec fn rows(self) -> int {
        self.nrows as int
    }

    pub closed spec fn cols(self) -> int {
        self.ncols as int
    }

    pub closed spec fn nodata_in(self) -> i64 {
        self.nd_in
    }

    pub closed spec fn nodata_out(self) -> i64 {
        self.nd_out
    }

    pub closed spec fn wf(self) -> bool {
        &&& self.cells@.len() == self.nrows
        &&& forall|r: int|
            0 <= r < self.nrows ==> (#[trigger] self.cells@[r])@.len() == self.ncols
        &&& (self.nrows as u64) < MAX_EXTENT
        &&& (self.ncols as u64) < MAX_EXTENT
    }

    /// The value read at `(r, c)`: the stored cell inside the bounds, the
    /// input sentinel outside them.
    pub closed spec fn cell(self, r: int, c: int) -> i64 {
        if 0 <= r < self.rows() && 0 <= c < self.cols() {
            self.cells@[r]@[c]
        } else {
            self.nd_in
        }
    }

    pub open spec fn in_bounds(self, r: int, c: int) -> bool {
        0 <= r < self.rows() && 0 <= c < self.cols()
    }

    /// Two grids agree on shape and sentinels.
    pub open spec fn same_frame(self, other: Grid2D) -> bool {
        &&& self.rows() == other.rows()
        &&& self.cols() == other.cols()
        &&& self.nodata_in() == other.nodata_in()
        &&& self.nodata_out() == other.nodata_out()
    }

    /// A well-formed grid's dimensions stay below `MAX_EXTENT`.
    pub proof fn lemma_wf_dims(self)
        requires
            self.wf(),
        ensures
            0 <= self.rows() < MAX_EXTENT,
            0 <= self.cols() < MAX_EXTENT,
    {
    }

    /// Allocates a `rows x cols` grid filled with `nodata_in`.
    pub fn new(rows: usize, cols: usize, nodata_in: i64, nodata_out: i64) -> (g: Grid2D)
        requires
            (rows as u64) < MAX_EXTENT,
            (cols as u64) < MAX_EXTENT,
        ensures
            g.wf(),
            g.rows() == rows,
            g.cols() == cols,
            g.nodata_in() == nodata_in,
            g.nodata_out() == nodata_out,
            forall|r: int, c: int| #[trigger] g.cell(r, c) == nodata_in,
    {
        let mut cells: Vec<Vec<i64>> = Vec::new();
        let mut r: usize = 0;
        while r < rows
            invariant
                r <= rows,
                cells@.len() == r,
                forall|i: int|
                    0 <= i < r ==> (#[trigger] cells@[i])@.len() == cols,
                forall|i: int, j: int|
                    0 <= i < r && 0 <= j < cols ==> (#[trigger] cells@[i]@[j]) == nodata_in,
            decreases rows - r,
        {
            let mut row: Vec<i64> = Vec::new();
            let mut c: usize = 0;
            while c < cols
                invariant
                    c <= cols,
                    row@.len() == c,
                    forall|j: int| 0 <= j < c ==> (#[trigger] row@[j]) == nodata_in,
                decreases cols - c,
            {
                row.push(nodata_in);
                c = c + 1;
            }
            cells.push(row);
            r = r + 1;
        }
        Grid2D { nrows: rows, ncols: cols, nd_in: nodata_in, nd_out: nodata_out, cells }
    }

    pub fn num_rows(&self) -> (n: usize)
        ensures
            n == self.rows(),
    {
        self.nrows
    }

    pub fn num_cols(&self) -> (n: usize)
        ensures
            n == self.cols(),
    {
        self.ncols
    }

    pub fn nodata_in_value(&self) -> (v: i64)
        ensures
            v == self.nodata_in(),
    {
        self.nd_in
    }

    pub fn nodata_out_value(&self) -> (v: i64)
        ensures
            v == self.nodata_out(),
    {
        self.nd_out
    }

    /// Reads `(r, c)`, returning `nodata_in` outside the bounds.  Signed
    /// coordinates let window scans walk past every edge of the grid.
    pub fn get(&self, r: i64, c: i64) -> (v: i64)
        requires
            self.wf(),
        ensures
            v == self.cell(r as int, c as int),
    {
        if 0 <= r && r < self.nrows as i64 && 0 <= c && c < self.ncols as i64 {
            self.cells[r as usize][c as usize]
        } else {
            self.nd_in
        }
    }

    /// Copies row `r` into a fresh vector, for handing a row of a shared
    /// grid to another worker or to the binning pass.
    pub fn row_vec(&self, r: usize) -> (out: Vec<i64>)
        requires
            self.wf(),
            r < self.rows(),
        ensures
            out@.len() == self.cols(),
            forall|c: int| 0 <= c < self.cols() ==> #[trigger] out@[c] == self.cell(r as int, c),
    {
        let mut out: Vec<i64> = Vec::new();
        let mut c: usize = 0;
        while c < self.ncols
            invariant
                self.wf(),
                r < self.rows(),
                c <= self.ncols,
                out@.len() == c,
                forall|j: int| 0 <= j < c ==> #[trigger] out@[j] == self.cell(r as int, j),
            decreases self.ncols - c,
        {
            out.push(self.cells[r][c]);
            c = c + 1;
        }
        out
    }

    /// Writes `v` at `(r, c)`; an out-of-range write is an error and
    /// leaves the grid unchanged.
    pub fn set(&mut self, r: usize, c: usize, v: i64) -> (res: Result<(), CoreError>)
        requires
            old(self).wf(),
        ensures
            final(self).wf(),
            final(self).same_frame(*old(self)),
            res is Ok <==> (r < old(self).rows() && c < old(self).cols()),
            res is Ok ==> final(self).cell(r as int, c as int) == v,
            res is Ok ==> forall|r2: int, c2: int|
                !(r2 == r as int && c2 == c as int)
                    ==> #[trigger] final(self).cell(r2, c2) == old(self).cell(r2, c2),
            res is Err ==> *final(self) == *old(self),
            res is Err ==> res == Result::<(), CoreError>::Err(CoreError::OutOfRange),
    {
        if r < self.nrows && c < self.ncols {
            let mut row = Vec::new();
            let old_row = &self.cells[r];
            let mut j: usize = 0;
            while j < self.ncols
                invariant
                    j <= self.ncols,
                    old_row == &self.cells@[r as int],
                    r < self.cells@.len(),
                    old_row@.len() == self.ncols,
                    row@.len() == j,
                    forall|k: int| 0 <= k < j ==> #[trigger] row@[k] == old_row@[k],
                decreases self.ncols - j,
            {
                row.push(old_row[j]);
                j = j + 1;
            }
            row[c] = v;
            self.cells[r] = row;
            assert(self.cells@[r as int]@ =~= old(self).cells@[r as int]@.update(c as int, v));
            Ok(())
        } else {
            Err(CoreError::OutOfRange)
        }
    }

    /// Replaces row `r` with `row_data`; an out-of-range row is an error
    /// and leaves the grid unchanged.
    pub fn set_row(&mut self, r: usize, row_data: Vec<i64>) -> (res: Result<(), CoreError>)
        requires
            old(self).wf(),
            row_data@.len() == old(self).cols(),
        ensures
            final(self).wf(),
            final(self).same_frame(*old(self)),
            res is Ok <==> r < old(self).rows(),
            res is Ok ==> forall|c: int|
                0 <= c < old(self).cols() ==> #[trigger] final(self).cell(r as int, c) == row_data@[c],
            res is Ok ==> forall|r2: int, c2: int|
                r2 != r as int ==> #[trigger] final(self).cell(r2, c2) == old(self).cell(r2, c2),
            res is Err ==> *final(self) == *old(self),
            res is Err ==> res == Result::<(), CoreError>::Err(CoreError::OutOfRange),
    {
        if r < self.nrows {
            self.cells[r] = row_data;
            Ok(())
        } else {
            Err(CoreError::OutOfRange)
        }
    }
}

/// The clamp-to-nodata read policy, stated for every consumer: a read
/// outside the bounds yields the input sentinel.
pub broadcast proof fn lemma_cell_oob(g: Grid2D, r: int, c: int)
    ensures
        !g.in_bounds(r, c) ==> #[trigger] g.cell(r, c) == g.nodata_in(),
{
}

} // verus!
