use terrain_tools::grid::Grid2D;
use terrain_tools::runner::partition_blocks;
use terrain_tools::CoreError;

#[test]
fn reads_outside_the_grid_are_nodata() {
    let mut g = Grid2D::new(2, 3, -1, -2);
    assert!(g.set(0, 0, 7).is_ok());
    assert!(g.set(1, 2, 9).is_ok());
    assert_eq!(g.get(0, 0), 7);
    assert_eq!(g.get(1, 2), 9);
    assert_eq!(g.get(0, 1), -1); // untouched cells hold the sentinel
    assert_eq!(g.get(-1, 0), -1);
    assert_eq!(g.get(0, -5), -1);
    assert_eq!(g.get(2, 0), -1);
    assert_eq!(g.get(0, 3), -1);
    assert_eq!(g.nodata_in_value(), -1);
    assert_eq!(g.nodata_out_value(), -2);
}

#[test]
fn writes_outside_the_grid_are_errors() {
    let mut g = Grid2D::new(2, 3, 0, 0);
    assert_eq!(g.set(2, 0, 1), Err(CoreError::OutOfRange));
    assert_eq!(g.set(0, 3, 1), Err(CoreError::OutOfRange));
    assert_eq!(g.set_row(2, vec![1, 2, 3]), Err(CoreError::OutOfRange));
    assert!(g.set_row(1, vec![4, 5, 6]).is_ok());
    assert_eq!(g.get(1, 1), 5);
    assert_eq!(g.row_vec(1), vec![4, 5, 6]);
}

#[test]
fn row_blocks_partition_the_rows() {
    // ceil(10/3) = 4: blocks (0,4) (4,8) (8,10); every row in exactly
    // one block, whatever the worker count.
    assert_eq!(partition_blocks(10, 3), vec![(0, 4), (4, 8), (8, 10)]);
    assert_eq!(partition_blocks(10, 1), vec![(0, 10)]);
    assert_eq!(partition_blocks(0, 4), Vec::<(usize, usize)>::new());
    assert_eq!(partition_blocks(3, 8), vec![(0, 1), (1, 2), (2, 3)]);
    for workers in 1..6 {
        let blocks = partition_blocks(10, workers);
        let mut covered = vec![0u32; 10];
        for (s, e) in blocks {
            for r in s..e {
                covered[r] += 1;
            }
        }
        assert!(covered.iter().all(|c| *c == 1));
    }
}

#[test]
fn error_descriptions() {
    assert_eq!(CoreError::InvalidInput.describe(), "invalid input");
    assert_eq!(CoreError::OutOfRange.describe(), "write outside the grid");
    assert_eq!(
        CoreError::InvariantViolation.describe(),
        "bin index outside the declared range"
    );
}
