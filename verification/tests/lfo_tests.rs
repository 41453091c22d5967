use terrain_tools::index::FixedRadiusIndex;
use terrain_tools::lfo::{
    check_point_format, count_clusters, flightline_cell, flightline_overlap, grid_dims,
    sort_times, LfoPoint, LFO_NODATA,
};
use terrain_tools::CoreError;

// Coordinates and times are scaled by 10 throughout these tests, so a
// resolution of 1.0 becomes 10 and the 15 s threshold becomes 150.

#[test]
fn format_without_gps_time_is_rejected() {
    assert_eq!(check_point_format(0), Err(CoreError::InvalidInput));
    assert_eq!(check_point_format(2), Err(CoreError::InvalidInput));
    assert_eq!(check_point_format(4), Err(CoreError::InvalidInput));
    assert!(check_point_format(1).is_ok());
    assert!(check_point_format(3).is_ok());
}

#[test]
fn format_error_produces_no_output() {
    let points = vec![LfoPoint { x: 5, y: 5, time: 0 }];
    let out = flightline_overlap(&points, 0, 0, 10, 0, 10, 10, 150, 5);
    match out {
        Err(e) => assert_eq!(e, CoreError::InvalidInput),
        Ok(_) => panic!("format without GPS time must be rejected"),
    }
}

#[test]
fn sorting_and_cluster_counting() {
    let times = vec![1000, 0, 1001, 1];
    let sorted = sort_times(&times);
    assert_eq!(sorted, vec![0, 1, 1000, 1001]);
    assert_eq!(count_clusters(&sorted, 150), 2);
    assert_eq!(count_clusters(&sorted, 2000), 1);
    assert_eq!(count_clusters(&Vec::new(), 150), 0);
    // one gap above, one at, one below the threshold
    let s2 = vec![0, 150, 301];
    assert_eq!(count_clusters(&s2, 150), 2);
}

#[test]
fn index_finds_inserted_points_within_radius() {
    // Every inserted point within the radius of a query appears in the
    // result; points further away do not.
    let mut idx = FixedRadiusIndex::new(10);
    idx.insert(5, 5, 0);
    idx.insert(14, 5, 1);
    idx.insert(40, 40, 2);
    idx.insert(-3, 5, 3);
    let hits = idx.search(5, 5);
    let mut ids: Vec<usize> = hits.iter().map(|e| e.id).collect();
    ids.sort();
    assert_eq!(ids, vec![0, 1, 3]);
    let far = idx.search(100, 100);
    assert!(far.is_empty());
}

#[test]
fn two_passes_over_one_cell() {
    // Four points at (0.5, 0.5) with times {0, 0.1, 100, 100.1} s at
    // resolution 1.0: the cell sees two flight passes.
    let points = vec![
        LfoPoint { x: 5, y: 5, time: 0 },
        LfoPoint { x: 5, y: 5, time: 1 },
        LfoPoint { x: 5, y: 5, time: 1000 },
        LfoPoint { x: 5, y: 5, time: 1001 },
    ];
    // header bounds [0,1]x[0,1], scaled by 10
    let g = flightline_overlap(&points, 1, 0, 10, 0, 10, 10, 150, 5).unwrap();
    assert_eq!(g.num_rows(), 1);
    assert_eq!(g.num_cols(), 1);
    assert_eq!(g.get(0, 0), 2);
}

#[test]
fn single_flightline_covers_with_ones() {
    // All times within one cluster: every covered cell reads 1.
    let points = vec![
        LfoPoint { x: 5, y: 5, time: 0 },
        LfoPoint { x: 5, y: 15, time: 10 },
        LfoPoint { x: 15, y: 15, time: 20 },
    ];
    let g = flightline_overlap(&points, 1, 0, 20, 0, 20, 10, 150, 5).unwrap();
    assert_eq!((g.num_rows(), g.num_cols()), (2, 2));
    // cell (0,0) holds (5,15); cell (0,1) holds (15,15); cell (1,0) holds (5,5)
    assert_eq!(g.get(0, 0), 1);
    assert_eq!(g.get(0, 1), 1);
    assert_eq!(g.get(1, 0), 1);
}

#[test]
fn empty_cells_are_nodata() {
    // A cell whose square footprint holds no point reads nodata.
    let points = vec![LfoPoint { x: 5, y: 15, time: 0 }];
    let g = flightline_overlap(&points, 3, 0, 20, 0, 20, 10, 150, 5).unwrap();
    assert_eq!((g.num_rows(), g.num_cols()), (2, 2));
    assert_eq!(g.get(0, 0), 1);
    assert_eq!(g.get(0, 1), LFO_NODATA);
    assert_eq!(g.get(1, 0), LFO_NODATA);
    assert_eq!(g.get(1, 1), LFO_NODATA);
}

#[test]
fn replicated_flightline_doubles_every_cell() {
    // The same geometry twice, the second copy shifted by more than
    // the threshold: every covered cell reads 2.
    let base = vec![
        LfoPoint { x: 5, y: 5, time: 0 },
        LfoPoint { x: 15, y: 5, time: 5 },
    ];
    let mut points = base.clone();
    for p in &base {
        points.push(LfoPoint { x: p.x, y: p.y, time: p.time + 2000 });
    }
    let g = flightline_overlap(&points, 1, 0, 10, 0, 20, 10, 150, 5).unwrap();
    assert_eq!((g.num_rows(), g.num_cols()), (1, 2));
    assert_eq!(g.get(0, 0), 2);
    assert_eq!(g.get(0, 1), 2);
}

#[test]
fn cell_query_uses_square_footprint() {
    // A point within the search radius of the centre but outside the
    // square footprint is not counted.
    let mut idx = FixedRadiusIndex::new(10);
    idx.insert(5, 5, 0); // centre of the cell
    idx.insert(13, 5, 1); // within radius 10 of (5,5) but |dx| = 8 > 5
    let times = vec![0, 1000];
    let val = flightline_cell(&idx, &times, 5, 5, 150);
    assert_eq!(val, 1);
}

#[test]
fn layout_matches_header_bounds() {
    // rows = ceil((north - min_y)/res), columns = ceil((max_x - west)/res)
    assert_eq!(grid_dims(95, 0, 207, 0, 10), (10, 21));
    assert_eq!(grid_dims(100, 0, 200, 0, 10), (10, 20));
    assert_eq!(grid_dims(5, 5, 5, 5, 10), (0, 0));
}
