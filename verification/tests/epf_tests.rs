use terrain_tools::epf::{
    adjust_filter_size, bin_grid, bin_row, elev_percentile, percentile_grid, percentile_row,
    RankCell, BIN_NODATA,
};
use terrain_tools::grid::Grid2D;
use terrain_tools::CoreError;

// Builds a bin grid from scaled elevations (scale 100, two retained
// digits) with the given nodata marker.
fn scaled_grid(rows: usize, cols: usize, vals: &[i64], nd: i64) -> Grid2D {
    let mut g = Grid2D::new(rows, cols, nd, nd);
    for r in 0..rows {
        for c in 0..cols {
            assert!(g.set(r, c, vals[r * cols + c]).is_ok());
        }
    }
    g
}

fn rank_to_percentile(cell: RankCell) -> Option<f64> {
    match cell {
        RankCell::Nodata => None,
        RankCell::Rank { n_less, n } => Some(100.0 * n_less as f64 / n as f64),
    }
}

#[test]
fn constant_grid_percentiles_are_zero() {
    // A 10x10 grid of the constant 50.0 (scaled 5000) under a 5x5
    // kernel: no cell is strictly below any other, so every output is
    // percentile 0 and never 100 (the strictly-less comparator).
    let vals: Vec<i64> = vec![5000; 100];
    let z = scaled_grid(10, 10, &vals, i64::MIN + 1);
    let out = elev_percentile(&z, 5000, 1, 5, 5).unwrap();
    assert_eq!(out.len(), 10);
    for row in &out {
        assert_eq!(row.len(), 10);
        for cell in row {
            match cell {
                RankCell::Rank { n_less, n } => {
                    assert_eq!(*n_less, 0);
                    assert!(*n >= 1);
                    assert_eq!(rank_to_percentile(*cell), Some(0.0));
                }
                RankCell::Nodata => panic!("unexpected nodata"),
            }
        }
    }
}

#[test]
fn ramp_row_percentiles() {
    // Five rows of [1,2,3,4,5] (scaled 100..500), 3x3 kernel.  The
    // sliding window holds three columns of three cells; an interior
    // cell ranks above the three cells of the column to its left:
    // 100*3/9.  At the east edge the window is truncated to six cells.
    let mut vals = Vec::new();
    for _ in 0..5 {
        vals.extend_from_slice(&[100, 200, 300, 400, 500]);
    }
    let z = scaled_grid(5, 5, &vals, i64::MIN + 1);
    let b = bin_grid(&z, 100, 401).unwrap();
    let row = percentile_row(&b, 2, 1, 1, 401);
    let expected = [(0u64, 6u64), (3, 9), (3, 9), (3, 9), (3, 6)];
    for (c, (nl, n)) in expected.iter().enumerate() {
        match row[c] {
            RankCell::Rank { n_less, n: total } => {
                assert_eq!((n_less, total), (*nl, *n));
            }
            RankCell::Nodata => panic!("unexpected nodata"),
        }
    }
    assert_eq!(rank_to_percentile(row[0]), Some(0.0));
    assert_eq!(rank_to_percentile(row[4]), Some(50.0));
}

#[test]
fn nodata_center_propagates() {
    // 5x5 grid of 10.0 (scaled 1000) with a nodata centre: the centre
    // emits nodata, neighbours compute against the reduced window.
    let nd = -9999_00;
    let mut vals = vec![1000i64; 25];
    vals[2 * 5 + 2] = nd;
    let z = scaled_grid(5, 5, &vals, nd);
    let out = elev_percentile(&z, 1000, 1, 3, 3).unwrap();
    assert_eq!(out[2][2], RankCell::Nodata);
    match out[2][1] {
        RankCell::Rank { n_less, n } => {
            assert_eq!(n_less, 0);
            assert_eq!(n, 8); // nine-cell window minus the nodata centre
        }
        RankCell::Nodata => panic!("neighbour must compute"),
    }
    match out[0][0] {
        RankCell::Rank { n_less, n } => {
            assert_eq!(n_less, 0);
            assert_eq!(n, 4); // corner window clipped to the grid
        }
        RankCell::Nodata => panic!("corner must compute"),
    }
}

#[test]
fn filter_sizes_are_normalised() {
    // Kernels below 3 clamp to 3; even kernels round up by one.
    assert_eq!(adjust_filter_size(4), 5);
    assert_eq!(adjust_filter_size(1), 3);
    assert_eq!(adjust_filter_size(0), 3);
    assert_eq!(adjust_filter_size(2), 3);
    assert_eq!(adjust_filter_size(11), 11);
    assert_eq!(adjust_filter_size(10), 11);
}

#[test]
fn binning_round_trip() {
    // For every non-nodata value: bin + min_bin recovers the scaled
    // value and the bin lies in [0, num_bins).
    let nd = i64::MIN + 1;
    let row = vec![100, 250, nd, 500, 100];
    let out = bin_row(&row, nd, 100, 401).unwrap();
    assert_eq!(out, vec![0, 150, BIN_NODATA, 400, 0]);
    for (i, v) in row.iter().enumerate() {
        if *v != nd {
            assert_eq!(out[i] + 100, *v);
            assert!(0 <= out[i] && out[i] < 401);
        }
    }
}

#[test]
fn binning_rejects_out_of_range() {
    // A value binning outside [0, num_bins) shows the declared range
    // is wrong: invariant violation.
    let nd = i64::MIN + 1;
    let row = vec![100, 99];
    assert_eq!(bin_row(&row, nd, 100, 401), Err(CoreError::InvariantViolation));
    let row2 = vec![100, 502];
    assert_eq!(bin_row(&row2, nd, 100, 401), Err(CoreError::InvariantViolation));
    let z = scaled_grid(1, 2, &[100, 502], nd);
    assert!(bin_grid(&z, 100, 401).is_err());
    let res = elev_percentile(&z, 100, 401, 3, 3);
    assert_eq!(res, Err(CoreError::InvariantViolation));
}

#[test]
fn output_is_deterministic_across_schedules() {
    // Row order does not matter: assembling rows in reverse equals the
    // sequential grid pass, and repeated runs are identical.
    let mut vals = Vec::new();
    for r in 0..6i64 {
        for c in 0..6i64 {
            vals.push(100 * r + 37 * c);
        }
    }
    let z = scaled_grid(6, 6, &vals, i64::MIN + 1);
    let b = bin_grid(&z, 0, 686).unwrap();
    let seq_out = percentile_grid(&b, 1, 1, 686);
    let mut rev_out: Vec<Vec<RankCell>> = vec![Vec::new(); 6];
    for r in (0..6usize).rev() {
        rev_out[r] = percentile_row(&b, r, 1, 1, 686);
    }
    assert_eq!(seq_out, rev_out);
    let again = percentile_grid(&b, 1, 1, 686);
    assert_eq!(seq_out, again);
}
