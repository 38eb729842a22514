//! Whether two segments meet, decided exactly on integers.

use vstd::prelude::*;
use crate::game::point::Point;

verus! {

/// A place on the grid of half steps: coordinate `2 * k` is grid line `k`, and
/// `2 * k + 1` stands for every place strictly between the lines `k` and `k + 1`. A
/// centre that lies off the grid lines is thereby told from one that lies on them.
#[derive(Clone, Copy, Debug, PartialEq, Eq, Structural)]
pub struct Spot {
    pub x: i64,
    pub y: i64,
}

/// The greatest magnitude of a coordinate for which `segments_meet` is computed.
pub const SPAN: i64 = 0x100_0000_0000;

impl Spot {
    /// Both coordinates lie within `SPAN` of the origin.
    pub open spec fn in_span(self) -> bool {
        -SPAN <= self.x <= SPAN && -SPAN <= self.y <= SPAN
    }
}

impl Point {
    /// This grid point on the grid of half steps.
    pub open spec fn spot(self) -> Spot {
        Spot { x: (2 * self.x) as i64, y: (2 * self.y) as i64 }
    }

    /// This grid point on the grid of half steps.
    pub fn to_spot(self) -> (s: Spot)
        ensures
            s == self.spot(),
            s.in_span(),
    {
        Spot { x: 2 * (self.x as i64), y: 2 * (self.y as i64) }
    }
}

/// The cross product of the directions of the segment from `a1` to `a2` and the segment
/// from `b1` to `b2`: zero where they are parallel.
pub open spec fn cross_of(a1: Spot, a2: Spot, b1: Spot, b2: Spot) -> int {
    (a2.x - a1.x) * (b2.y - b1.y) - (b2.x - b1.x) * (a2.y - a1.y)
}

/// `cross_of` times the parameter along the first segment at which the lines through the
/// two segments meet.
pub open spec fn along_first(a1: Spot, a2: Spot, b1: Spot, b2: Spot) -> int {
    (b2.x - b1.x) * (a1.y - b1.y) - (b2.y - b1.y) * (a1.x - b1.x)
}

/// `cross_of` times the parameter along the second segment at which the lines through
/// the two segments meet.
pub open spec fn along_second(a1: Spot, a2: Spot, b1: Spot, b2: Spot) -> int {
    (a2.x - a1.x) * (a1.y - b1.y) - (a2.y - a1.y) * (a1.x - b1.x)
}

/// The segment from `a1` to `a2` and the segment from `b1` to `b2` meet: the lines through
/// them are not parallel, and the point they share lies at a parameter between 0 and 1,
/// both included, on each segment. Parallel segments never meet, even where they overlap.
#[verifier::opaque]
pub open spec fn meets(a1: Spot, a2: Spot, b1: Spot, b2: Spot) -> bool {
    let den = cross_of(a1, a2, b1, b2);
    let s = along_second(a1, a2, b1, b2);
    let t = along_first(a1, a2, b1, b2);
    (den > 0 && 0 <= s <= den && 0 <= t <= den) || (den < 0 && den <= s <= 0 && den <= t <= 0)
}

/// `den * d + t * u == s * v` where `den`, `t` and `s` are the cross products of `(u, v)`,
/// `(v, d)` and `(u, d)`: the identity behind the rule of Cramer, one coordinate at a time.
proof fn lemma_cramer(ux: int, uy: int, vx: int, vy: int, dx: int, dy: int)
    ensures
        (ux * vy - vx * uy) * dx + (vx * dy - vy * dx) * ux == (ux * dy - uy * dx) * vx,
        (ux * vy - vx * uy) * dy + (vx * dy - vy * dx) * uy == (ux * dy - uy * dx) * vy,
{
    assert((ux * vy - vx * uy) * dx == ux * vy * dx - vx * uy * dx) by (nonlinear_arith);
    assert((vx * dy - vy * dx) * ux == vx * dy * ux - vy * dx * ux) by (nonlinear_arith);
    assert((ux * dy - uy * dx) * vx == ux * dy * vx - uy * dx * vx) by (nonlinear_arith);
    assert(ux * vy * dx == vy * dx * ux) by (nonlinear_arith);
    assert(vx * dy * ux == ux * dy * vx) by (nonlinear_arith);
    assert(vx * uy * dx == uy * dx * vx) by (nonlinear_arith);
    assert((ux * vy - vx * uy) * dy == ux * vy * dy - vx * uy * dy) by (nonlinear_arith);
    assert((vx * dy - vy * dx) * uy == vx * dy * uy - vy * dx * uy) by (nonlinear_arith);
    assert((ux * dy - uy * dx) * vy == ux * dy * vy - uy * dx * vy) by (nonlinear_arith);
    assert(ux * vy * dy == ux * dy * vy) by (nonlinear_arith);
    assert(vx * uy * dy == vx * dy * uy) by (nonlinear_arith);
    assert(vy * dx * uy == uy * dx * vy) by (nonlinear_arith);
}

/// The two parameters belong to one point: the first segment reaches at its parameter
/// the point that the second reaches at its own, here multiplied out by `cross_of`.
pub proof fn lemma_shared_point(a1: Spot, a2: Spot, b1: Spot, b2: Spot)
    ensures
        cross_of(a1, a2, b1, b2) * a1.x + along_first(a1, a2, b1, b2) * (a2.x - a1.x)
            == cross_of(a1, a2, b1, b2) * b1.x + along_second(a1, a2, b1, b2) * (b2.x - b1.x),
        cross_of(a1, a2, b1, b2) * a1.y + along_first(a1, a2, b1, b2) * (a2.y - a1.y)
            == cross_of(a1, a2, b1, b2) * b1.y + along_second(a1, a2, b1, b2) * (b2.y - b1.y),
{
    let den = cross_of(a1, a2, b1, b2);
    let dx = a1.x - b1.x;
    let dy = a1.y - b1.y;
    lemma_cramer(a2.x - a1.x, a2.y - a1.y, b2.x - b1.x, b2.y - b1.y, dx, dy);
    assert(den * a1.x == den * b1.x + den * dx) by (nonlinear_arith)
        requires
            a1.x == b1.x + dx,
    ;
    assert(den * a1.y == den * b1.y + den * dy) by (nonlinear_arith)
        requires
            a1.y == b1.y + dy,
    ;
}

/// Whether two segments meet does not depend on which of them is named first.
pub proof fn lemma_meets_either_way(a1: Spot, a2: Spot, b1: Spot, b2: Spot)
    ensures
        meets(a1, a2, b1, b2) == meets(b1, b2, a1, a2),
{
    reveal(meets);
    let sax = a2.x - a1.x;
    let say = a2.y - a1.y;
    let sbx = b2.x - b1.x;
    let sby = b2.y - b1.y;
    let dx = a1.x - b1.x;
    let dy = a1.y - b1.y;
    assert(sbx * say - sax * sby == -(sax * sby - sbx * say));
    assert(sax * (-dy) - say * (-dx) == -(sax * dy - say * dx)) by (nonlinear_arith);
    assert(sbx * (-dy) - sby * (-dx) == -(sbx * dy - sby * dx)) by (nonlinear_arith);
    assert(b1.x - a1.x == -dx && b1.y - a1.y == -dy);
}

/// A product of two differences of coordinates within `SPAN` fits well into 128 bits.
proof fn lemma_product_bound(x: int, y: int)
    requires
        -0x200_0000_0000 <= x <= 0x200_0000_0000,
        -0x200_0000_0000 <= y <= 0x200_0000_0000,
    ensures
        -0x4_0000_0000_0000_0000_0000 <= x * y <= 0x4_0000_0000_0000_0000_0000,
{
    assert(-0x4_0000_0000_0000_0000_0000 <= x * y <= 0x4_0000_0000_0000_0000_0000)
        by (nonlinear_arith)
        requires
            -0x200_0000_0000 <= x <= 0x200_0000_0000,
            -0x200_0000_0000 <= y <= 0x200_0000_0000,
    ;
}

/// Whether the segment from `a1` to `a2` meets the segment from `b1` to `b2`.
pub fn segments_meet(a1: Spot, a2: Spot, b1: Spot, b2: Spot) -> (r: bool)
    requires
        a1.in_span(),
        a2.in_span(),
        b1.in_span(),
        b2.in_span(),
    ensures
        r == meets(a1, a2, b1, b2),
{
    proof {
        reveal(meets);
    }
    let sax: i128 = a2.x as i128 - a1.x as i128;
    let say: i128 = a2.y as i128 - a1.y as i128;
    let sbx: i128 = b2.x as i128 - b1.x as i128;
    let sby: i128 = b2.y as i128 - b1.y as i128;
    let dx: i128 = a1.x as i128 - b1.x as i128;
    let dy: i128 = a1.y as i128 - b1.y as i128;
    proof {
        lemma_product_bound(sax as int, sby as int);
        lemma_product_bound(sbx as int, say as int);
        lemma_product_bound(sax as int, dy as int);
        lemma_product_bound(say as int, dx as int);
        lemma_product_bound(sbx as int, dy as int);
        lemma_product_bound(sby as int, dx as int);
    }
    let den: i128 = sax * sby - sbx * say;
    let s: i128 = sax * dy - say * dx;
    let t: i128 = sbx * dy - sby * dx;
    if den > 0 {
        0 <= s && s <= den && 0 <= t && t <= den
    } else if den < 0 {
        den <= s && s <= 0 && den <= t && t <= 0
    } else {
        false
    }
}

} // verus!
