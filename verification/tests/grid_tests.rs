use heightmap::grid::{build_grid, copy_grid, grid_side, Grid};
use heightmap::region::{is_subdividable, Region};

fn rows(grid: &Grid<f64>) -> Vec<Vec<f64>> {
    let side = grid.side();
    (0..side)
        .map(|r| (0..side).map(|c| grid.get(r, c)).collect())
        .collect()
}

#[test]
fn side_of_each_small_level() {
    assert_eq!(grid_side(0), Some(2));
    assert_eq!(grid_side(1), Some(3));
    assert_eq!(grid_side(2), Some(5));
    assert_eq!(grid_side(5), Some(33));
    assert_eq!(grid_side(10), Some(1025));
}

#[test]
fn side_of_a_level_too_large_is_none() {
    assert_eq!(grid_side(64), None);
    assert_eq!(grid_side(u32::MAX), None);
}

#[test]
fn built_grid_holds_corners_and_zeros() {
    for n in 1..7u32 {
        let grid = build_grid(n, 0.0f64, &[0.05, 0.1, 0.2, 0.07]);
        let side = (1usize << n) + 1;
        assert_eq!(grid.side(), side);
        for r in 0..side {
            for c in 0..side {
                let want = match (r, c) {
                    (0, 0) => 0.05,
                    (0, c) if c == side - 1 => 0.1,
                    (r, 0) if r == side - 1 => 0.2,
                    (r, c) if r == side - 1 && c == side - 1 => 0.07,
                    _ => 0.0,
                };
                assert_eq!(grid.get(r, c), want);
            }
        }
    }
}

#[test]
fn built_grid_of_level_two() {
    let grid = build_grid(2, 0.0f64, &[0.0, 1.0, 2.0, 3.0]);
    assert_eq!(
        rows(&grid),
        vec![
            vec![0.0, 0.0, 0.0, 0.0, 1.0],
            vec![0.0, 0.0, 0.0, 0.0, 0.0],
            vec![0.0, 0.0, 0.0, 0.0, 0.0],
            vec![0.0, 0.0, 0.0, 0.0, 0.0],
            vec![2.0, 0.0, 0.0, 0.0, 3.0],
        ]
    );
}

#[test]
fn set_replaces_one_cell() {
    let mut grid = build_grid(1, 0i64, &[1, 2, 3, 4]);
    grid.set(1, 2, 9);
    assert_eq!(grid.get(1, 2), 9);
    grid.set(0, 0, 7);
    let mut seen = Vec::new();
    for r in 0..3 {
        for c in 0..3 {
            seen.push(grid.get(r, c));
        }
    }
    assert_eq!(seen, vec![7, 0, 2, 0, 0, 9, 3, 0, 4]);
}

#[test]
fn copy_is_equal_and_independent() {
    let mut grid = build_grid(2, 0.0f64, &[0.0, 1.0, 2.0, 3.0]);
    grid.set(2, 3, 4.5);
    let copy = copy_grid(&grid);
    assert_eq!(copy.side(), 5);
    assert_eq!(rows(&copy), rows(&grid));
    grid.set(2, 3, -1.0);
    assert_eq!(copy.get(2, 3), 4.5);
    assert_eq!(grid.get(2, 3), -1.0);
}

#[test]
fn corners_of_a_region_in_order() {
    let region = Region { row: 2, col: 4, side: 5 };
    assert_eq!(region.corner(0), (2, 4));
    assert_eq!(region.corner(1), (2, 8));
    assert_eq!(region.corner(2), (6, 4));
    assert_eq!(region.corner(3), (6, 8));
}

#[test]
fn corner_values_are_read_from_the_region() {
    let mut grid = build_grid(2, 0.0f64, &[0.0, 1.0, 2.0, 3.0]);
    let whole = Region::full(grid.side());
    assert_eq!(grid.corner(0, &whole), 0.0);
    assert_eq!(grid.corner(1, &whole), 1.0);
    assert_eq!(grid.corner(2, &whole), 2.0);
    assert_eq!(grid.corner(3, &whole), 3.0);
    let quarter = whole.quadrant(1);
    grid.set_corner(2, &quarter, 8.0);
    assert_eq!(grid.get(2, 2), 8.0);
    assert_eq!(grid.corner(2, &quarter), 8.0);
    assert_eq!(grid.corner(1, &quarter), 1.0);
    assert_eq!(grid.corner(3, &whole.quadrant(0)), 8.0);
}

#[test]
fn cells_of_a_step_in_order() {
    let region = Region { row: 1, col: 3, side: 5 };
    assert_eq!(region.target(0), (3, 5));
    assert_eq!(region.target(1), (1, 5));
    assert_eq!(region.target(2), (3, 3));
    assert_eq!(region.target(3), (3, 7));
    assert_eq!(region.target(4), (5, 5));
}

#[test]
fn quadrants_share_the_middle() {
    let region = Region { row: 0, col: 0, side: 9 };
    let q: Vec<(usize, usize, usize)> = (0..4)
        .map(|i| region.quadrant(i))
        .map(|r| (r.row, r.col, r.side))
        .collect();
    assert_eq!(q, vec![(0, 0, 5), (0, 4, 5), (4, 0, 5), (4, 4, 5)]);
}

#[test]
fn sides_that_can_be_subdivided() {
    for side in [2usize, 3, 5, 9, 17, 33, 1025, (1usize << 40) + 1] {
        assert!(is_subdividable(side), "{side}");
    }
    for side in [0usize, 1, 4, 6, 7, 8, 10, 16, 1024, 1026, usize::MAX] {
        assert!(!is_subdividable(side), "{side}");
    }
}
