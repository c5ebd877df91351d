use occupancy_grid::controller::gridmap::GridMap;
use occupancy_grid::geometry::{Point, Vector};
use occupancy_grid::raster::trace::trace;
use occupancy_grid::raster::walk::{Cell, Walker, LIMIT};

fn cells(path: &[Cell]) -> Vec<(i64, i64)> {
    path.iter().map(|c| (c.row, c.col)).collect()
}

/// Whether some point of the segment lies in the cell, by trying every
/// fraction `k / n` with `n` twice the product of the travels.
fn crosses_by_samples(x0: i64, u0: i64, x1: i64, u1: i64, s: i64, col: i64, row: i64) -> bool {
    let dx = (x1 - x0).abs().max(1);
    let du = (u1 - u0).abs().max(1);
    let n = 2 * dx * du;
    for k in 0..=n {
        let x = x0 * n + (x1 - x0) * k;
        let u = u0 * n + (u1 - u0) * k;
        if col * s * n <= x && x < (col + 1) * s * n && row * s * n <= u && u < (row + 1) * s * n {
            return true;
        }
    }
    false
}

#[test]
fn trace_of_a_point_is_its_cell() {
    assert_eq!(cells(&trace(5, 5, 5, 5, 10)), vec![(0, 0)]);
    assert_eq!(cells(&trace(-1, -1, -1, -1, 10)), vec![(-1, -1)]);
    assert_eq!(cells(&trace(10, 20, 10, 20, 10)), vec![(2, 1)]);
}

#[test]
fn trace_along_a_row() {
    assert_eq!(
        cells(&trace(0, 0, 5, 0, 1)),
        vec![(0, 0), (0, 1), (0, 2), (0, 3), (0, 4), (0, 5)]
    );
    assert_eq!(
        cells(&trace(5, 0, 0, 0, 1)),
        vec![(0, 5), (0, 4), (0, 3), (0, 2), (0, 1), (0, 0)]
    );
}

#[test]
fn trace_along_a_column() {
    assert_eq!(cells(&trace(3, -15, 3, 15, 10)), vec![(-2, 0), (-1, 0), (0, 0), (1, 0)]);
    assert_eq!(cells(&trace(3, 15, 3, -15, 10)), vec![(1, 0), (0, 0), (-1, 0), (-2, 0)]);
}

#[test]
fn trace_through_a_corner_in_each_direction() {
    assert_eq!(cells(&trace(5, 5, 15, 15, 10)), vec![(0, 0), (1, 1)]);
    assert_eq!(cells(&trace(15, 15, 5, 5, 10)), vec![(1, 1), (0, 0)]);
    assert_eq!(cells(&trace(5, 15, 15, 5, 10)), vec![(1, 0), (1, 1), (0, 1)]);
    assert_eq!(cells(&trace(15, 5, 5, 15, 10)), vec![(0, 1), (1, 1), (1, 0)]);
}

#[test]
fn trace_ending_on_a_corner() {
    assert_eq!(cells(&trace(5, 5, 10, 10, 10)), vec![(0, 0), (1, 1)]);
    assert_eq!(cells(&trace(15, 15, 10, 10, 10)), vec![(1, 1)]);
    assert_eq!(cells(&trace(5, 15, 10, 10, 10)), vec![(1, 0), (1, 1)]);
    assert_eq!(cells(&trace(15, 5, 10, 10, 10)), vec![(0, 1), (1, 1)]);
    assert_eq!(cells(&trace(10, 10, 5, 5, 10)), vec![(1, 1), (0, 0)]);
    assert_eq!(cells(&trace(10, 10, 15, 5, 10)), vec![(1, 1), (0, 1)]);
    assert_eq!(cells(&trace(10, 10, 5, 15, 10)), vec![(1, 1), (1, 0)]);
}

#[test]
fn trace_on_a_slope() {
    assert_eq!(cells(&trace(5, 5, 35, 15, 10)), vec![(0, 0), (0, 1), (1, 2), (1, 3)]);
    assert_eq!(cells(&trace(5, 5, 25, 12, 10)), vec![(0, 0), (0, 1), (1, 1), (1, 2)]);
    assert_eq!(cells(&trace(5, 5, 12, 25, 10)), vec![(0, 0), (1, 0), (1, 1), (2, 1)]);
}

#[test]
fn trace_agrees_with_sampling() {
    let s = 3;
    let mut checked = 0;
    for x0 in -4..5 {
        for u0 in -4..5 {
            for x1 in (-7..8).step_by(2) {
                for u1 in (-7..8).step_by(3) {
                    let path = cells(&trace(x0, u0, x1, u1, s));
                    for row in -4..4 {
                        for col in -4..4 {
                            let on = path.contains(&(row, col));
                            let crossed = crosses_by_samples(x0, u0, x1, u1, s, col, row);
                            assert_eq!(
                                on, crossed,
                                "segment ({}, {}) to ({}, {}), cell ({}, {})",
                                x0, u0, x1, u1, row, col
                            );
                        }
                    }
                    checked += 1;
                }
            }
        }
    }
    assert_eq!(checked, 9 * 9 * 8 * 5);
}

#[test]
fn trace_has_no_gap_and_no_repeat() {
    for &(x0, u0, x1, u1, s) in [
        (0i64, 0i64, 100i64, 37i64, 7i64),
        (100, 37, 0, 0, 7),
        (-50, 60, 45, -71, 10),
        (45, -71, -50, 60, 10),
        (0, 0, 0, 90, 4),
        (3, 3, -300, 4, 5),
        (LIMIT, LIMIT, LIMIT - 50, LIMIT - 20, 3),
        (-LIMIT, -LIMIT, -LIMIT + 50, -LIMIT + 20, 3),
        (-LIMIT, LIMIT, LIMIT, -LIMIT, LIMIT),
    ]
    .iter()
    {
        let path = trace(x0, u0, x1, u1, s);
        assert_eq!(path[0], Cell { row: u0.div_euclid(s), col: x0.div_euclid(s) });
        assert_eq!(
            path[path.len() - 1],
            Cell { row: u1.div_euclid(s), col: x1.div_euclid(s) }
        );
        let sx = if x1 >= x0 { 1 } else { -1 };
        let su = if u1 >= u0 { 1 } else { -1 };
        for pair in path.windows(2) {
            let dc = pair[1].col - pair[0].col;
            let dr = pair[1].row - pair[0].row;
            assert!(dc == 0 || dc == sx);
            assert!(dr == 0 || dr == su);
            assert!(dc != 0 || dr != 0);
        }
    }
}

#[test]
fn walker_steps_through_the_trace() {
    let mut w = Walker::new(5, 15, 15, 5, 10);
    let mut seen = vec![w.cell()];
    while !w.is_done() {
        w.advance();
        seen.push(w.cell());
    }
    assert_eq!(cells(&seen), vec![(1, 0), (1, 1), (0, 1)]);
    assert_eq!(seen, trace(5, 15, 15, 5, 10));
}

#[test]
fn grid_trace_uses_anchor_and_rows_growing_downwards() {
    let grid = GridMap::new(4, 10, Vector::new(-20, 20));
    let path = grid.trace(&Point::new(-15, 15), &Point::new(5, -5));
    assert_eq!(cells(&path), vec![(0, 0), (1, 1), (2, 2)]);
    let path = grid.trace(&Point::new(-25, 25), &Point::new(-15, 25));
    assert_eq!(cells(&path), vec![(-1, -1), (-1, 0)]);
    let path = grid.trace(&Point::new(-15, 20), &Point::new(-15, 0));
    assert_eq!(cells(&path), vec![(0, 0), (1, 0), (2, 0)]);
}

#[test]
fn grid_trace_at_the_ends_of_the_coordinate_range() {
    let grid = GridMap::new(2, i32::MAX, Vector::new(i32::MIN, i32::MAX));
    let path = grid.trace(&Point::new(i32::MIN, i32::MAX), &Point::new(i32::MAX, i32::MIN));
    assert_eq!(cells(&path), vec![(0, 0), (1, 1), (2, 2)]);
    let grid = GridMap::new(2, 1 << 30, Vector::new(i32::MAX, i32::MIN));
    let path = grid.trace(&Point::new(i32::MAX, i32::MIN), &Point::new(i32::MIN, i32::MAX));
    assert_eq!(path.len(), 5);
    assert_eq!(path[0], Cell { row: 0, col: 0 });
    assert_eq!(path[4], Cell { row: -4, col: -4 });
}
