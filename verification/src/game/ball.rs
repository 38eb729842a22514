//! Balls, and the test that tells which boundary holds one.

use vstd::prelude::*;
use crate::game::crossing::{meets, segments_meet, Spot};
use crate::game::edge::Edge;
use crate::game::facing::Facing;

verus! {

/// A ball as the boundary logic sees it: a number by which its owner finds it again, and
/// the place of its centre on the grid of half steps.
#[derive(Clone, Copy, Debug, PartialEq, Eq, Structural)]
pub struct Ball {
    pub id: usize,
    pub x: i32,
    pub y: i32,
}

/// The length, in half steps, of the rays that the inside test casts: 1024 grid steps.
pub const REACH: i64 = 2048;

impl Ball {
    pub fn new(id: usize, x: i32, y: i32) -> (ball: Ball)
        ensures
            ball == (Ball { id, x, y }),
    {
        Ball { id, x, y }
    }

    /// The centre of the ball.
    pub open spec fn spot(self) -> Spot {
        Spot { x: self.x as i64, y: self.y as i64 }
    }

    /// The far end of the ray cast from the centre: towards greater `y` where `level` is
    /// set, to be tested against the edges that run level, else towards greater `x`.
    pub open spec fn ray_end(self, level: bool) -> Spot {
        if level {
            Spot { x: self.x as i64, y: (self.y + REACH) as i64 }
        } else {
            Spot { x: (self.x + REACH) as i64, y: self.y as i64 }
        }
    }
}

impl Facing {
    /// Edges with this facing run level, along the `x` axis; the others run upright.
    pub open spec fn level(self) -> bool {
        self is Down || self is Up
    }

    /// Whether edges with this facing run level.
    pub fn is_level(self) -> (r: bool)
        ensures
            r == self.level(),
    {
        match self {
            Facing::Down => true,
            Facing::Left => false,
            Facing::Up => true,
            Facing::Right => false,
        }
    }
}

impl Edge {
    /// The ray that the ball casts across edges of this facing meets the edge.
    pub open spec fn struck_by(self, ball: Ball) -> bool {
        meets(self.a.spot(), self.b.spot(), ball.spot(), ball.ray_end(self.n.level()))
    }

    /// Whether the ray that the ball casts across edges of this facing meets the edge.
    pub fn is_struck_by(&self, ball: Ball) -> (r: bool)
        ensures
            r == self.struck_by(ball),
    {
        let from = Spot { x: ball.x as i64, y: ball.y as i64 };
        let to = if self.n.is_level() {
            Spot { x: ball.x as i64, y: ball.y as i64 + REACH }
        } else {
            Spot { x: ball.x as i64 + REACH, y: ball.y as i64 }
        };
        segments_meet(self.a.to_spot(), self.b.to_spot(), from, to)
    }
}

/// How many of the edges that run level (or, where `level` is unset, upright) the ball's
/// ray across them meets.
pub open spec fn strikes(edges: Seq<Edge>, ball: Ball, level: bool) -> nat
    decreases edges.len(),
{
    if edges.len() == 0 {
        0
    } else {
        let e = edges.last();
        let hit: nat = if e.n.level() == level && e.struck_by(ball) {
            1
        } else {
            0
        };
        strikes(edges.drop_last(), ball, level) + hit
    }
}

/// The even-odd rule on both axes: the boundary holds the ball where the ray cast along
/// `y` meets an odd number of level edges and the ray cast along `x` an odd number of
/// upright edges. An edge that a ray only touches, at either end of either, counts as met.
pub open spec fn encloses(edges: Seq<Edge>, ball: Ball) -> bool {
    strikes(edges, ball, true) % 2 == 1 && strikes(edges, ball, false) % 2 == 1
}

/// The balls of `balls` that the boundary holds, in their order.
pub open spec fn enclosed(edges: Seq<Edge>, balls: Seq<Ball>) -> Seq<Ball>
    decreases balls.len(),
{
    if balls.len() == 0 {
        Seq::empty()
    } else {
        let before = enclosed(edges, balls.drop_last());
        if encloses(edges, balls.last()) {
            before.push(balls.last())
        } else {
            before
        }
    }
}

/// Whether the boundary `edges` holds `ball`.
pub fn boundary_holds(edges: &Vec<Edge>, ball: Ball) -> (r: bool)
    ensures
        r == encloses(edges@, ball),
{
    let mut odd_level: bool = false;
    let mut odd_upright: bool = false;
    let mut i: usize = 0;
    while i < edges.len()
        invariant
            i <= edges@.len(),
            odd_level == (strikes(edges@.take(i as int), ball, true) % 2 == 1),
            odd_upright == (strikes(edges@.take(i as int), ball, false) % 2 == 1),
        decreases edges@.len() - i,
    {
        let e: Edge = edges[i];
        proof {
            assert(edges@.take(i as int + 1).drop_last() =~= edges@.take(i as int));
        }
        if e.is_struck_by(ball) {
            if e.n.is_level() {
                odd_level = !odd_level;
            } else {
                odd_upright = !odd_upright;
            }
        }
        i += 1;
    }
    proof {
        assert(edges@.take(i as int) =~= edges@);
    }
    odd_level && odd_upright
}

/// The balls of `balls` that the boundary `edges` holds, in their order.
pub fn balls_held(edges: &Vec<Edge>, balls: &Vec<Ball>) -> (r: Vec<Ball>)
    ensures
        r@ == enclosed(edges@, balls@),
{
    let mut r: Vec<Ball> = Vec::new();
    let mut i: usize = 0;
    while i < balls.len()
        invariant
            i <= balls@.len(),
            r@ == enclosed(edges@, balls@.take(i as int)),
        decreases balls@.len() - i,
    {
        proof {
            assert(balls@.take(i as int + 1).drop_last() =~= balls@.take(i as int));
        }
        if boundary_holds(edges, balls[i]) {
            r.push(balls[i]);
        }
        i += 1;
    }
    proof {
        assert(balls@.take(i as int) =~= balls@);
    }
    r
}

} // verus!
