use heightmap::engine::diamond_square;
use heightmap::grid::{build_grid, copy_grid, Grid};
use heightmap::region::Region;
use std::cell::Cell;

fn mean(a: f64, b: f64, c: f64, d: f64) -> f64 {
    (0.0 + a + b + c + d) / 4.0
}

fn plus(m: f64, s: f64) -> f64 {
    m + s
}

fn rows(grid: &Grid<f64>) -> Vec<Vec<f64>> {
    let side = grid.side();
    (0..side)
        .map(|r| (0..side).map(|c| grid.get(r, c)).collect())
        .collect()
}

fn bits(grid: &Grid<f64>) -> Vec<u64> {
    rows(grid).into_iter().flatten().map(f64::to_bits).collect()
}

#[test]
fn constant_sample_gives_the_known_grid() {
    let mut grid = build_grid(2, 0.0f64, &[0.0, 1.0, 2.0, 3.0]);
    let whole = Region::full(grid.side());
    diamond_square(&mut grid, whole, &mean, &|| 0.5, &plus);
    assert_eq!(
        rows(&grid),
        vec![
            vec![0.0, 2.0, 2.0, 2.25, 1.0],
            vec![2.0, 2.0, 2.25, 2.25, 2.25],
            vec![2.0, 2.5, 2.0, 2.75, 2.0],
            vec![2.5, 2.5, 2.75, 2.75, 2.75],
            vec![2.0, 2.5, 2.0, 2.75, 3.0],
        ]
    );
}

#[test]
fn zero_sample_gives_the_known_grid() {
    let mut grid = build_grid(2, 0.0f64, &[0.0, 1.0, 2.0, 3.0]);
    let whole = Region::full(grid.side());
    diamond_square(&mut grid, whole, &mean, &|| 0.0, &plus);
    assert_eq!(
        rows(&grid),
        vec![
            vec![0.0, 1.125, 1.5, 1.375, 1.0],
            vec![1.125, 1.125, 1.375, 1.375, 1.375],
            vec![1.5, 1.625, 1.5, 1.875, 1.5],
            vec![1.625, 1.625, 1.875, 1.875, 1.875],
            vec![2.0, 1.625, 1.5, 1.875, 3.0],
        ]
    );
}

#[test]
fn samples_are_used_in_order() {
    let next = Cell::new(0.0f64);
    let sample = || {
        next.set(next.get() + 1.0);
        next.get()
    };
    let mut grid = build_grid(2, 0.0f64, &[0.0, 1.0, 2.0, 3.0]);
    let whole = Region::full(grid.side());
    diamond_square(&mut grid, whole, &mean, &sample, &plus);
    assert_eq!(
        rows(&grid),
        vec![
            vec![0.0, 9.625, 3.5, 15.125, 1.0],
            vec![10.625, 8.625, 16.125, 14.125, 17.125],
            vec![4.5, 20.875, 2.5, 26.375, 5.5],
            vec![21.875, 19.875, 27.375, 25.375, 28.375],
            vec![2.0, 23.875, 6.5, 29.375, 3.0],
        ]
    );
    assert_eq!(next.get(), 25.0);
}

#[test]
fn same_source_gives_identical_bits() {
    let seed = build_grid(4, 0.0f64, &[0.05, 0.1, 0.2, 0.07]);
    let mut first = copy_grid(&seed);
    let mut second = copy_grid(&seed);
    let whole = Region::full(seed.side());
    diamond_square(&mut first, whole, &mean, &|| 0.0, &plus);
    diamond_square(&mut second, whole, &mean, &|| 0.0, &plus);
    assert_eq!(bits(&first), bits(&second));
    assert!(bits(&first).iter().any(|&b| b != 0));
}

#[test]
fn center_and_edges_come_from_the_first_corner_mean() {
    for n in 1..6u32 {
        let samples = [0.25f64, -1.5, 3.0, 0.125, -0.75];
        let drawn = Cell::new(0usize);
        let sample = || {
            let k = drawn.get();
            drawn.set(k + 1);
            if k < 5 {
                samples[k]
            } else {
                100.0 + k as f64
            }
        };
        let corners = [0.05f64, 0.1, 0.2, 0.07];
        let mut grid = build_grid(n, 0.0f64, &corners);
        let side = grid.side();
        let whole = Region::full(side);
        diamond_square(&mut grid, whole, &mean, &sample, &plus);
        let avg = (0.0 + corners[0] + corners[1] + corners[2] + corners[3]) / 4.0;
        let mid = (side - 1) / 2;
        assert_eq!(grid.get(mid, mid), avg + samples[0]);
        assert_eq!(grid.get(0, mid), avg + samples[1]);
        assert_eq!(grid.get(mid, 0), avg + samples[2]);
        assert_eq!(grid.get(mid, side - 1), avg + samples[3]);
        assert_eq!(grid.get(side - 1, mid), avg + samples[4]);
        assert_eq!(grid.get(0, 0), corners[0]);
        assert_eq!(grid.get(0, side - 1), corners[1]);
        assert_eq!(grid.get(side - 1, 0), corners[2]);
        assert_eq!(grid.get(side - 1, side - 1), corners[3]);
    }
}

#[test]
fn cells_outside_the_region_are_kept() {
    let mut grid = build_grid(3, 7.0f64, &[1.0, 2.0, 3.0, 4.0]);
    let before = copy_grid(&grid);
    let region = Region { row: 2, col: 4, side: 5 };
    diamond_square(&mut grid, region, &mean, &|| 1.0, &plus);
    for r in 0..9 {
        for c in 0..9 {
            let inside = (2..7).contains(&r) && (4..9).contains(&c);
            let corner = (r == 2 || r == 6) && (c == 4 || c == 8);
            if !inside || corner {
                assert_eq!(grid.get(r, c), before.get(r, c));
            } else {
                assert!(grid.get(r, c) >= 8.0);
            }
        }
    }
}

#[test]
fn region_of_side_two_is_one_step() {
    let mut grid = build_grid(1, 0.0f64, &[1.0, 0.0, 0.0, 0.0]);
    grid.set(0, 1, 2.0);
    grid.set(1, 0, 3.0);
    grid.set(1, 1, 6.0);
    let calls = Cell::new(0u32);
    let patch = Region { row: 0, col: 0, side: 2 };
    let sample = || {
        calls.set(calls.get() + 1);
        calls.get() as f64
    };
    diamond_square(&mut grid, patch, &mean, &sample, &plus);
    assert_eq!(calls.get(), 5);
    assert_eq!(
        rows(&grid),
        vec![vec![6.0, 7.0, 0.0], vec![8.0, 6.0, 0.0], vec![0.0, 0.0, 0.0]]
    );
}

#[test]
fn visits_are_a_geometric_series() {
    for n in 1..8u32 {
        let visits = Cell::new(0u64);
        let samples = Cell::new(0u64);
        let mut grid = build_grid(n, 0.0f64, &[0.0, 1.0, 2.0, 3.0]);
        let whole = Region::full(grid.side());
        diamond_square(
            &mut grid,
            whole,
            &|a: f64, b: f64, c: f64, d: f64| {
                visits.set(visits.get() + 1);
                mean(a, b, c, d)
            },
            &|| {
                samples.set(samples.get() + 1);
                0.0
            },
            &plus,
        );
        assert_eq!(visits.get(), (4u64.pow(n) - 1) / 3);
        assert_eq!(samples.get(), 5 * visits.get());
    }
}

#[test]
fn level_ten_terminates() {
    let visits = Cell::new(0u64);
    let mut grid = build_grid(10, 0.0f64, &[0.0, 1.0, 2.0, 3.0]);
    let whole = Region::full(grid.side());
    diamond_square(
        &mut grid,
        whole,
        &|a: f64, b: f64, c: f64, d: f64| {
            visits.set(visits.get() + 1);
            mean(a, b, c, d)
        },
        &|| 0.0,
        &plus,
    );
    assert_eq!(visits.get(), 349_525);
    assert!(visits.get() <= (4u64.pow(10) - 1) / 3 + 1);
    for r in 0..1025 {
        for c in 0..1025 {
            assert!(grid.get(r, c).is_finite());
        }
    }
}

#[test]
fn every_cell_but_the_corners_is_written() {
    let mut grid = build_grid(3, -1.0f64, &[0.0, 0.0, 0.0, 0.0]);
    let whole = Region::full(grid.side());
    diamond_square(&mut grid, whole, &mean, &|| 1.0, &plus);
    for r in 0..9 {
        for c in 0..9 {
            let corner = (r == 0 || r == 8) && (c == 0 || c == 8);
            assert_eq!(grid.get(r, c) == 0.0, corner, "({r}, {c})");
        }
    }
}
