use occupancy_grid::controller::gridmap::{CellState, GridMap, OBSTACLE};
use occupancy_grid::controller::Controller;
use occupancy_grid::geometry::{Point, Vector};
use occupancy_grid::pointcloud::PointCloud;
use occupancy_grid::simulation::robot::Pose;

fn grid10() -> GridMap {
    GridMap::new(10, 1, Vector::new(0, 0))
}

fn cloud_of(points: &[(i32, i32)]) -> PointCloud {
    let mut cloud = PointCloud::new();
    for &(x, y) in points {
        cloud.push(Point::new(x, y));
    }
    cloud
}

fn states(grid: &GridMap) -> Vec<Vec<CellState>> {
    let n = grid.size();
    let mut rows = Vec::new();
    for r in 0..n {
        let mut row = Vec::new();
        for c in 0..n {
            row.push(*grid.cell_state(r, c).unwrap());
        }
        rows.push(row);
    }
    rows
}

fn origin_pose() -> Pose {
    Pose::new(Vector::new(0, 0), 0)
}

#[test]
fn new_grid_is_all_unknown() {
    let grid = GridMap::new(4, 25, Vector::new(-7, 9));
    assert_eq!(grid.size(), 4);
    assert_eq!(grid.cell_size(), 25);
    assert_eq!(grid.anchor(), Vector::new(-7, 9));
    for r in 0..4 {
        for c in 0..4 {
            assert_eq!(grid.cell_state(r, c), Some(&CellState::Unknown));
        }
    }
}

#[test]
fn cell_state_outside_is_none() {
    let grid = grid10();
    assert_eq!(grid.cell_state(10, 0), None);
    assert_eq!(grid.cell_state(0, 10), None);
    assert_eq!(grid.cell_state(usize::MAX, usize::MAX), None);
    assert_eq!(grid.cell_state(9, 9), Some(&CellState::Unknown));
}

#[test]
fn single_ray_along_row_zero() {
    let mut grid = grid10();
    grid.update(&origin_pose(), &cloud_of(&[(5, 0)]));
    for r in 0..10 {
        for c in 0..10 {
            let expected = if r == 0 && c < 5 {
                CellState::Freespace
            } else if r == 0 && c == 5 {
                CellState::Occupied(OBSTACLE)
            } else {
                CellState::Unknown
            };
            assert_eq!(grid.cell_state(r, c), Some(&expected), "cell ({}, {})", r, c);
        }
    }
}

#[test]
fn single_ray_along_row_zero_in_fine_units() {
    let mut grid = GridMap::new(10, 1000, Vector::new(0, 0));
    grid.update(&origin_pose(), &cloud_of(&[(5000, 0)]));
    for r in 0..10 {
        for c in 0..10 {
            let expected = if r == 0 && c < 5 {
                CellState::Freespace
            } else if r == 0 && c == 5 {
                CellState::Occupied(OBSTACLE)
            } else {
                CellState::Unknown
            };
            assert_eq!(grid.cell_state(r, c), Some(&expected), "cell ({}, {})", r, c);
        }
    }
}

#[test]
fn occupied_cell_survives_a_later_ray_through_it() {
    let mut grid = grid10();
    grid.update(&origin_pose(), &cloud_of(&[(3, 0)]));
    assert_eq!(grid.cell_state(0, 3), Some(&CellState::Occupied(OBSTACLE)));
    grid.update(&origin_pose(), &cloud_of(&[(6, 0)]));
    assert_eq!(grid.cell_state(0, 0), Some(&CellState::Freespace));
    assert_eq!(grid.cell_state(0, 1), Some(&CellState::Freespace));
    assert_eq!(grid.cell_state(0, 2), Some(&CellState::Freespace));
    assert_eq!(grid.cell_state(0, 3), Some(&CellState::Occupied(OBSTACLE)));
    assert_eq!(grid.cell_state(0, 4), Some(&CellState::Freespace));
    assert_eq!(grid.cell_state(0, 5), Some(&CellState::Freespace));
    assert_eq!(grid.cell_state(0, 6), Some(&CellState::Occupied(OBSTACLE)));
    assert_eq!(grid.cell_state(0, 7), Some(&CellState::Unknown));
    assert_eq!(grid.cell_state(1, 3), Some(&CellState::Unknown));
}

#[test]
fn occupied_wins_within_one_update_in_either_order() {
    let mut a = grid10();
    a.update(&origin_pose(), &cloud_of(&[(3, 0), (6, 0)]));
    let mut b = grid10();
    b.update(&origin_pose(), &cloud_of(&[(6, 0), (3, 0)]));
    assert_eq!(states(&a), states(&b));
    assert_eq!(a.cell_state(0, 3), Some(&CellState::Occupied(OBSTACLE)));
    assert_eq!(a.cell_state(0, 6), Some(&CellState::Occupied(OBSTACLE)));
    assert_eq!(a.cell_state(0, 4), Some(&CellState::Freespace));
}

#[test]
fn occupied_stays_through_many_updates() {
    let mut grid = grid10();
    grid.update(&origin_pose(), &cloud_of(&[(4, -4)]));
    assert_eq!(grid.cell_state(4, 4), Some(&CellState::Occupied(OBSTACLE)));
    let clouds = [
        cloud_of(&[(8, -8)]),
        cloud_of(&[(9, -9), (4, -9), (9, -4)]),
        cloud_of(&[(5, -5), (4, -5), (5, -4)]),
        cloud_of(&[]),
    ];
    for cloud in clouds.iter() {
        grid.update(&origin_pose(), cloud);
        assert_eq!(grid.cell_state(4, 4), Some(&CellState::Occupied(OBSTACLE)));
    }
    let other = Pose::new(Vector::new(9, -9), 0);
    grid.update(&other, &cloud_of(&[(0, 0)]));
    assert_eq!(grid.cell_state(4, 4), Some(&CellState::Occupied(OBSTACLE)));
    assert_eq!(grid.cell_state(0, 0), Some(&CellState::Occupied(OBSTACLE)));
}

#[test]
fn points_outside_the_grid_change_nothing() {
    let mut grid = grid10();
    grid.update(&origin_pose(), &cloud_of(&[(3, -2)]));
    let before = states(&grid);
    let far = cloud_of(&[
        (1_000_000, 0),
        (10, 0),
        (0, 1),
        (-1, 0),
        (5, -10),
        (i32::MAX, i32::MIN),
        (i32::MIN, i32::MAX),
        (i32::MAX, i32::MAX),
        (i32::MIN, i32::MIN),
        (5, -1_000_000),
    ]);
    grid.update(&origin_pose(), &far);
    assert_eq!(states(&grid), before);
}

#[test]
fn same_update_twice_is_as_once() {
    let cloud = cloud_of(&[(7, -3), (2, -9), (9, 0), (40, -40), (0, 0)]);
    let pose = Pose::new(Vector::new(1, -1), 0);
    let mut once = grid10();
    once.update(&pose, &cloud);
    let mut twice = grid10();
    twice.update(&pose, &cloud);
    twice.update(&pose, &cloud);
    assert_eq!(states(&once), states(&twice));
}

#[test]
fn hit_at_the_robot_marks_one_cell() {
    let mut grid = grid10();
    let pose = Pose::new(Vector::new(3, -4), 0);
    grid.update(&pose, &cloud_of(&[(3, -4)]));
    for r in 0..10 {
        for c in 0..10 {
            let expected = if r == 4 && c == 3 {
                CellState::Occupied(OBSTACLE)
            } else {
                CellState::Unknown
            };
            assert_eq!(grid.cell_state(r, c), Some(&expected));
        }
    }
}

#[test]
fn hit_in_the_robots_cell_marks_one_cell() {
    let mut grid = GridMap::new(3, 10, Vector::new(0, 0));
    let pose = Pose::new(Vector::new(11, -12), 0);
    grid.update(&pose, &cloud_of(&[(19, -18)]));
    assert_eq!(grid.cell_state(1, 1), Some(&CellState::Occupied(OBSTACLE)));
    let marked: usize = states(&grid).iter().flatten().filter(|s| **s != CellState::Unknown).count();
    assert_eq!(marked, 1);
}

#[test]
fn robot_outside_the_grid_marks_only_cells_of_the_grid() {
    let mut grid = grid10();
    let pose = Pose::new(Vector::new(-20, 0), 0);
    grid.update(&pose, &cloud_of(&[(2, 0)]));
    assert_eq!(grid.cell_state(0, 0), Some(&CellState::Freespace));
    assert_eq!(grid.cell_state(0, 1), Some(&CellState::Freespace));
    assert_eq!(grid.cell_state(0, 2), Some(&CellState::Occupied(OBSTACLE)));
    assert_eq!(grid.cell_state(0, 3), Some(&CellState::Unknown));
    let marked: usize = states(&grid).iter().flatten().filter(|s| **s != CellState::Unknown).count();
    assert_eq!(marked, 3);
}

#[test]
fn diagonal_ray_through_corners() {
    let mut grid = GridMap::new(4, 10, Vector::new(0, 0));
    let pose = Pose::new(Vector::new(5, -5), 0);
    grid.update(&pose, &cloud_of(&[(35, -35)]));
    for r in 0..4 {
        for c in 0..4 {
            let expected = if r == 3 && c == 3 {
                CellState::Occupied(OBSTACLE)
            } else if r == c {
                CellState::Freespace
            } else {
                CellState::Unknown
            };
            assert_eq!(grid.cell_state(r, c), Some(&expected), "cell ({}, {})", r, c);
        }
    }
}

#[test]
fn anchor_shifts_the_cells() {
    let mut grid = GridMap::new(5, 10, Vector::new(-20, 30));
    let pose = Pose::new(Vector::new(-15, 25), 0);
    grid.update(&pose, &cloud_of(&[(15, 25)]));
    assert_eq!(grid.cell_state(0, 0), Some(&CellState::Freespace));
    assert_eq!(grid.cell_state(0, 1), Some(&CellState::Freespace));
    assert_eq!(grid.cell_state(0, 2), Some(&CellState::Freespace));
    assert_eq!(grid.cell_state(0, 3), Some(&CellState::Occupied(OBSTACLE)));
    assert_eq!(grid.cell_state(0, 4), Some(&CellState::Unknown));
    assert_eq!(grid.cell_state(1, 0), Some(&CellState::Unknown));
}

#[test]
fn observe_is_one_ray() {
    let mut a = grid10();
    a.observe(&Point::new(0, 0), &Point::new(4, -2));
    let mut b = grid10();
    b.update(&origin_pose(), &cloud_of(&[(4, -2)]));
    assert_eq!(states(&a), states(&b));
    assert_eq!(a.cell_state(2, 4), Some(&CellState::Occupied(OBSTACLE)));
    assert_eq!(a.cell_state(0, 0), Some(&CellState::Freespace));
}

#[test]
fn locate_and_cell_of() {
    let grid = GridMap::new(10, 10, Vector::new(0, 0));
    assert_eq!(grid.locate(&Point::new(0, 0)), Some((0, 0)));
    assert_eq!(grid.locate(&Point::new(9, -9)), Some((0, 0)));
    assert_eq!(grid.locate(&Point::new(10, -10)), Some((1, 1)));
    assert_eq!(grid.locate(&Point::new(99, -99)), Some((9, 9)));
    assert_eq!(grid.locate(&Point::new(100, -99)), None);
    assert_eq!(grid.locate(&Point::new(99, -100)), None);
    assert_eq!(grid.locate(&Point::new(-1, 0)), None);
    assert_eq!(grid.locate(&Point::new(0, 1)), None);
    let cell = grid.cell_of(&Point::new(-1, 1));
    assert_eq!((cell.row, cell.col), (-1, -1));
    let cell = grid.cell_of(&Point::new(-10, 10));
    assert_eq!((cell.row, cell.col), (-1, -1));
    let cell = grid.cell_of(&Point::new(-11, 11));
    assert_eq!((cell.row, cell.col), (-2, -2));
    let cell = grid.cell_of(&Point::new(25, -37));
    assert_eq!((cell.row, cell.col), (3, 2));
}

#[test]
fn cell_center_values() {
    let grid = GridMap::new(10, 10, Vector::new(0, 0));
    assert_eq!(grid.cell_center(0, 0), Some(Point::new(5, -5)));
    assert_eq!(grid.cell_center(3, 2), Some(Point::new(25, -35)));
    assert_eq!(grid.cell_center(10, 0), None);
    assert_eq!(grid.cell_center(0, 10), None);
    let odd = GridMap::new(3, 7, Vector::new(100, -100));
    assert_eq!(odd.cell_center(1, 2), Some(Point::new(117, -110)));
    let edge = GridMap::new(4, i32::MAX, Vector::new(0, 0));
    assert_eq!(edge.cell_center(3, 3), Some(Point::new(i32::MAX, i32::MIN)));
}

#[test]
fn center_lies_within_one_cell_of_each_point() {
    let grid = GridMap::new(6, 7, Vector::new(-13, 17));
    for x in -20..40 {
        for y in -40..25 {
            let p = Point::new(x, y);
            if let Some((row, col)) = grid.locate(&p) {
                let mid = grid.cell_center(row, col).unwrap();
                let dx = (mid.pos.x - x) as i64;
                let dy = (mid.pos.y - y) as i64;
                assert!(2 * dx.abs() <= 7 && 2 * dy.abs() <= 7);
                assert!(dx * dx + dy * dy <= 49);
                assert_eq!(grid.locate(&mid), Some((row, col)));
            }
        }
    }
}

#[test]
fn controller_step_sets_pose_and_updates_map() {
    let mut ctl = Controller::new(10, 1, Vector::new(0, 0), origin_pose());
    assert_eq!(ctl.robot.pose, origin_pose());
    let pose = Pose::new(Vector::new(2, -2), 785);
    ctl.step(pose, &cloud_of(&[(5, -2)]));
    assert_eq!(ctl.robot.pose, pose);
    assert_eq!(ctl.gridmap.cell_state(2, 2), Some(&CellState::Freespace));
    assert_eq!(ctl.gridmap.cell_state(2, 3), Some(&CellState::Freespace));
    assert_eq!(ctl.gridmap.cell_state(2, 4), Some(&CellState::Freespace));
    assert_eq!(ctl.gridmap.cell_state(2, 5), Some(&CellState::Occupied(OBSTACLE)));
    assert_eq!(ctl.gridmap.cell_state(0, 0), Some(&CellState::Unknown));
}

#[test]
fn cell_state_is_occupied() {
    assert!(CellState::Occupied(7).is_occupied());
    assert!(!CellState::Freespace.is_occupied());
    assert!(!CellState::Unknown.is_occupied());
}

#[test]
fn marked_cells_lists_known_cells_row_by_row() {
    let mut grid = grid10();
    assert_eq!(grid.marked_cells(), vec![]);
    grid.update(&origin_pose(), &cloud_of(&[(2, 0), (0, -2)]));
    assert_eq!(
        grid.marked_cells(),
        vec![
            (0, 0, CellState::Freespace),
            (0, 1, CellState::Freespace),
            (0, 2, CellState::Occupied(OBSTACLE)),
            (1, 0, CellState::Freespace),
            (2, 0, CellState::Occupied(OBSTACLE)),
        ]
    );
}

#[test]
fn update_marks_what_the_traces_list() {
    let pose = Pose::new(Vector::new(13, -41), 0);
    let hits = [(88, -7), (2, -95), (60, -60), (13, -41), (99, -99), (0, 0), (250, -41), (45, 3)];
    let mut grid = GridMap::new(10, 10, Vector::new(0, 0));
    grid.update(&pose, &cloud_of(&hits));

    let mut expected = vec![vec![CellState::Unknown; 10]; 10];
    let probe = GridMap::new(10, 10, Vector::new(0, 0));
    for &(x, y) in hits.iter() {
        let hit = Point::new(x, y);
        if probe.locate(&hit).is_none() {
            continue;
        }
        let path = probe.trace(&pose.location(), &hit);
        let last = path.len() - 1;
        for (i, cell) in path.iter().enumerate() {
            if cell.row < 0 || cell.row >= 10 || cell.col < 0 || cell.col >= 10 {
                continue;
            }
            let slot = &mut expected[cell.row as usize][cell.col as usize];
            if i == last {
                *slot = CellState::Occupied(OBSTACLE);
            } else if *slot == CellState::Unknown {
                *slot = CellState::Freespace;
            }
        }
    }
    assert_eq!(states(&grid), expected);
    assert_eq!(expected[0][8], CellState::Occupied(OBSTACLE));
    assert_eq!(expected[4][1], CellState::Occupied(OBSTACLE));
    assert_eq!(expected[9][9], CellState::Occupied(OBSTACLE));
    assert_eq!(expected[4][9], CellState::Unknown);
}
