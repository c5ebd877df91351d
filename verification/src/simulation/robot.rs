//! Pose of the robot.
use vstd::prelude::*;
use crate::geometry::point::Point;
use crate::geometry::vector::Vector;
use crate::math::Scalar;

verus! {

/// Where the robot is and which way it faces. The heading is an angle in
/// fixed-point radians.
#[derive(Debug, Copy, Clone, PartialEq, Eq, Structural)]
pub struct Pose {
    pub position: Vector,
    pub heading: Scalar,
}

impl Pose {
    pub fn new(position: Vector, heading: Scalar) -> (pose: Pose)
        ensures
            pose.position == position,
            pose.heading == heading,
    {
        Pose { position, heading }
    }

    /// The position as a point.
    pub fn location(&self) -> (p: Point)
        ensures
            p.pos == self.position,
    {
        Point::from_vector(self.position)
    }
}

/// A robot; all that the map needs of it is its pose.
#[derive(Debug, Copy, Clone, PartialEq, Eq, Structural)]
pub struct Robot {
    pub pose: Pose,
}

impl Robot {
    pub fn new(pose: Pose) -> (robot: Robot)
        ensures
            robot.pose == pose,
    {
        Robot { pose }
    }

    /// Takes the pose that the motion model has computed.
    pub fn set_pose(&mut self, pose: Pose)
        ensures
            final(self).pose == pose,
    {
        self.pose = pose;
    }
}

} // verus!
