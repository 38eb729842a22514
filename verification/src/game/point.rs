//! Grid points, and the order in which the boundary logic compares them.

use vstd::prelude::*;

verus! {

/// A point of the integer grid on which boundaries and walls are laid out.
#[derive(Clone, Copy, Debug, PartialEq, Eq, Structural)]
pub struct Point {
    pub x: i16,
    pub y: i16,
}

impl Point {
    pub fn new(x: i16, y: i16) -> (p: Point)
        ensures
            p.x == x,
            p.y == y,
    {
        Point { x, y }
    }

    /// `self` is at or below `other` in both coordinates.
    pub open spec fn within(self, other: Point) -> bool {
        self.x <= other.x && self.y <= other.y
    }
}

/// `p <= q` as `nalgebra` orders two points: its `le` on `OPoint` hands the comparison to
/// the coordinate vectors, where it holds when every coordinate of `p` is at most the
/// matching coordinate of `q`. Both points have two coordinates, so the comparison never
/// fails on a mismatch of shapes.
#[verifier::external_body]
pub(crate) fn point_le(p: Point, q: Point) -> (r: bool)
    ensures
        r == p.within(q),
{
    nalgebra::Point2::new(p.x, p.y) <= nalgebra::Point2::new(q.x, q.y)
}

/// `p >= q` as `nalgebra` orders two points: its `ge` on `OPoint` holds when every
/// coordinate of `p` is at least the matching coordinate of `q`.
#[verifier::external_body]
pub(crate) fn point_ge(p: Point, q: Point) -> (r: bool)
    ensures
        r == q.within(p),
{
    nalgebra::Point2::new(p.x, p.y) >= nalgebra::Point2::new(q.x, q.y)
}

} // verus!
