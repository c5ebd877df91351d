//! The points returned by one sensing cycle.
use vstd::prelude::*;
use crate::geometry::point::Point;

verus! {

/// Sensed points in the order in which they were added. A point may occur
/// more than once.
#[derive(Debug)]
pub struct PointCloud {
    points: Vec<Point>,
}

impl View for PointCloud {
    type V = Seq<Point>;

    closed spec fn view(&self) -> Seq<Point> {
        self.points@
    }
}

impl Clone for PointCloud {
    fn clone(&self) -> (cloud: PointCloud)
        ensures
            cloud@ == self@,
    {
        let mut points: Vec<Point> = Vec::new();
        let mut i: usize = 0;
        while i < self.points.len()
            invariant
                i <= self.points@.len(),
                points@ == self.points@.subrange(0, i as int),
            decreases self.points@.len() - i,
        {
            points.push(self.points[i]);
            i = i + 1;
            assert(points@ =~= self.points@.subrange(0, i as int));
        }
        assert(points@ =~= self.points@);
        PointCloud { points }
    }
}

impl PointCloud {
    /// A cloud without points.
    pub fn new() -> (cloud: PointCloud)
        ensures
            cloud@ == Seq::<Point>::empty(),
    {
        PointCloud { points: Vec::new() }
    }

    /// The cloud of `points`, in their order.
    pub fn from_points(points: Vec<Point>) -> (cloud: PointCloud)
        ensures
            cloud@ == points@,
    {
        PointCloud { points }
    }

    /// Adds `p` behind the points already held.
    pub fn push(&mut self, p: Point)
        ensures
            final(self)@ == old(self)@.push(p),
    {
        self.points.push(p);
    }

    pub fn len(&self) -> (n: usize)
        ensures
            n == self@.len(),
    {
        self.points.len()
    }

    /// The point at position `i`, if the cloud has that many.
    pub fn get(&self, i: usize) -> (p: Option<Point>)
        ensures
            p == if i < self@.len() {
                Some(self@[i as int])
            } else {
                None
            },
    {
        if i < self.points.len() {
            Some(self.points[i])
        } else {
            None
        }
    }

    /// The points in their order.
    pub fn points(&self) -> (points: &Vec<Point>)
        ensures
            points@ == self@,
    {
        &self.points
    }

    /// Walks the points in their order.
    pub fn iter(&self) -> (it: core::slice::Iter<'_, Point>)
        ensures
            vstd::std_specs::slice::into_iter_elts(it) == self@,
    {
        self.points.as_slice().iter()
    }
}

} // verus!
