//! The map and the robot it is built from, kept in step.
use vstd::prelude::*;
use crate::geometry::point::Point;
use crate::geometry::vector::Vector;
use crate::math::Scalar;
use crate::pointcloud::PointCloud;
use crate::simulation::robot::{Pose, Robot};

pub mod gridmap;
pub mod laws;

use gridmap::{CellState, GridMap};

verus! {

/// A robot and the map built from what it senses.
pub struct Controller {
    pub gridmap: GridMap,
    pub robot: Robot,
}

impl Controller {
    /// A controller with a map of `size` rows and columns of cells of side
    /// `cell_size`, all unknown, anchored at `anchor`, and a robot at `pose`.
    pub fn new(size: usize, cell_size: Scalar, anchor: Vector, pose: Pose) -> (ctl: Controller)
        requires
            size > 0,
            cell_size > 0,
            size * size <= usize::MAX,
        ensures
            ctl.robot.pose == pose,
            ctl.gridmap.side() == size,
            ctl.gridmap.edge() == cell_size,
            ctl.gridmap.origin() == anchor,
            forall|row: int, col: int|
                ctl.gridmap.in_range(row, col) ==> #[trigger] ctl.gridmap.state(row, col) == Some(
                    CellState::Unknown,
                ),
    {
        Controller { gridmap: GridMap::new(size, cell_size, anchor), robot: Robot::new(pose) }
    }

    /// One tick: the robot takes `pose`, and the map takes in `cloud` as
    /// sensed from that same pose.
    pub fn step(&mut self, pose: Pose, cloud: &PointCloud)
        ensures
            final(self).robot.pose == pose,
            final(self).gridmap.updated(
                old(self).gridmap,
                (Point { pos: pose.position }),
                cloud@,
            ),
    {
        self.robot.set_pose(pose);
        self.gridmap.update(&pose, cloud);
    }
}

} // verus!
