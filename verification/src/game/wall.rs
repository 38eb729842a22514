//! What a rectangular wall does to one edge of a boundary.

use vstd::prelude::*;
use crate::game::edge::{
    first_holding, is_point_on_any_edge, is_point_on_edge, lemma_first_holding, Edge,
};
use crate::game::facing::Facing;
use crate::game::point::Point;

verus! {

/// A rectangular wall, given by its corners clockwise from the top left.
#[derive(Clone, Copy, Debug, PartialEq, Eq, Structural)]
pub struct Wall {
    pub top_left: Point,
    pub top_right: Point,
    pub bottom_right: Point,
    pub bottom_left: Point,
}

impl Wall {
    pub fn new(top_left: Point, top_right: Point, bottom_right: Point, bottom_left: Point) -> (w:
        Wall)
        ensures
            w == (Wall { top_left, top_right, bottom_right, bottom_left }),
    {
        Wall { top_left, top_right, bottom_right, bottom_left }
    }

    /// Corner `k` in clockwise order, counted round and round from the top left.
    pub open spec fn corner(self, k: int) -> Point {
        let r = k % 4;
        if r == 0 {
            self.top_left
        } else if r == 1 {
            self.top_right
        } else if r == 2 {
            self.bottom_right
        } else {
            self.bottom_left
        }
    }

    /// The corners span a rectangle with width and height, clockwise on a screen whose `y`
    /// axis points down.
    pub open spec fn proper(self) -> bool {
        &&& self.top_left.x < self.top_right.x
        &&& self.top_left.y < self.bottom_left.y
        &&& self.top_right.y == self.top_left.y
        &&& self.bottom_left.x == self.top_left.x
        &&& self.bottom_right.x == self.top_right.x
        &&& self.bottom_right.y == self.bottom_left.y
    }

    /// Whether the corners span a rectangle with width and height.
    pub fn is_proper(&self) -> (r: bool)
        ensures
            r == self.proper(),
    {
        self.top_left.x < self.top_right.x && self.top_left.y < self.bottom_left.y
            && self.top_right.y == self.top_left.y && self.bottom_left.x == self.top_left.x
            && self.bottom_right.x == self.top_right.x && self.bottom_right.y
            == self.bottom_left.y
    }

    /// `p` lies on the wall: inside the rectangle or on its rim.
    pub open spec fn covers(self, p: Point) -> bool {
        self.top_left.x <= p.x <= self.bottom_right.x && self.top_left.y <= p.y
            <= self.bottom_right.y
    }

    /// Corner `k` in clockwise order, counted round and round from the top left.
    pub fn corner_at(&self, k: usize) -> (p: Point)
        ensures
            p == self.corner(k as int),
    {
        let r: usize = k % 4;
        if r == 0 {
            self.top_left
        } else if r == 1 {
            self.top_right
        } else if r == 2 {
            self.bottom_right
        } else {
            self.bottom_left
        }
    }
}

/// Side `k` of the wall, counted clockwise round and round from the top: it leads from
/// corner `k` to the next corner and faces the inside of the rectangle.
pub open spec fn side(w: Wall, k: int) -> Edge {
    Edge { a: w.corner(k), b: w.corner(k + 1), n: Facing::at(k) }
}

/// The four sides of the wall as the boundary round the inside of the rectangle, walked
/// clockwise from the top left.
pub open spec fn rim(w: Wall) -> Seq<Edge> {
    seq![side(w, 0), side(w, 1), side(w, 2), side(w, 3)]
}

/// The edge `e` and the wall `w` share the point `p`.
pub open spec fn touches(e: Edge, w: Wall, p: Point) -> bool {
    e.holds(p) && w.covers(p)
}

/// The edge `e` stays clear of the wall `w`: they share no point.
pub open spec fn apart(e: Edge, w: Wall) -> bool {
    forall|p: Point| !#[trigger] touches(e, w, p)
}

/// The edges `from..to` of `edges`, and nothing where that range is empty.
pub open spec fn between(edges: Seq<Edge>, from: int, to: int) -> Seq<Edge> {
    if 0 <= from <= to <= edges.len() {
        edges.subrange(from, to)
    } else {
        Seq::empty()
    }
}

/// `s` with its last `k` edges moved to the front.
pub open spec fn rotated(s: Seq<Edge>, k: int) -> Seq<Edge> {
    s.subrange(s.len() - k, s.len() as int) + s.subrange(0, s.len() - k)
}

/// What becomes of one edge of a boundary when a wall is cut in.
pub struct Splice {
    /// The edges that take the place of this edge, and of any it consumes, in the boundary
    /// that is kept.
    pub kept: Seq<Edge>,
    /// The boundary that the wall severs from the kept one, where its far corner lands on a
    /// later edge.
    pub severed: Option<Seq<Edge>>,
    /// The index of the next edge that has not been consumed.
    pub next: int,
}

/// How a wall touches an edge.
pub enum Touch {
    /// The edge ends on the last of the wall's corners as met from this edge: the wall
    /// continues the edge past its end.
    Trailing,
    /// The first of the wall's corners as met from this edge lies on the edge.
    Leading,
    /// The wall leaves the edge alone.
    Clear,
}

/// The four corners of `w` in the order in which a walk along `e` meets them: the
/// corner that bears the number of the edge's facing first, then clockwise.
pub open spec fn corners_met(e: Edge, w: Wall) -> (Point, Point, Point, Point) {
    let k = e.n.index();
    (w.corner(k), w.corner(k + 1), w.corner(k + 2), w.corner(k + 3))
}

/// How `w` touches `e`: whether `e` ends on the last corner that it meets is asked first.
pub open spec fn touch(e: Edge, w: Wall) -> Touch {
    let (a, b, c, d) = corners_met(e, w);
    if e.b == d {
        Touch::Trailing
    } else if e.holds(a) {
        Touch::Leading
    } else {
        Touch::Clear
    }
}

/// The corner whose landing on a later edge decides between a notch and a split.
pub open spec fn far_corner(e: Edge, w: Wall) -> Point {
    let (a, b, c, d) = corners_met(e, w);
    if touch(e, w) is Trailing {
        c
    } else {
        d
    }
}

/// The place among the edges after `i` of the first one on which the far corner of the
/// wall, as met from edge `i`, lies: the third corner where the wall continues the edge
/// (`trailing`), else the fourth.
pub open spec fn landing_of(edges: Seq<Edge>, w: Wall, i: int, trailing: bool) -> Option<int> {
    let (a, b, c, d) = corners_met(edges[i], w);
    first_holding(edges.skip(i + 1), if trailing { c } else { d })
}

/// The place among the edges after `i` of the first one on which the far corner of the
/// wall, as met from edge `i`, lies.
pub open spec fn landing(edges: Seq<Edge>, w: Wall, i: int) -> Option<int> {
    landing_of(edges, w, i, touch(edges[i], w) is Trailing)
}

/// The severed boundary of a leading split before it is rotated: what is left of edge
/// `i` past the wall (or, where the wall ends with the edge, nothing of it and nothing
/// of the next edge), the edges up to the landing, and the two edges that close the loop
/// along the wall.
pub open spec fn leading_loop(edges: Seq<Edge>, w: Wall, i: int, ci: int) -> Seq<Edge> {
    let e = edges[i];
    let rest = edges.skip(i + 1);
    let (a, b, c, d) = corners_met(e, w);
    let land = rest[ci];
    if b != e.b {
        seq![Edge { a: b, b: e.b, n: e.n }] + between(rest, 0, ci) + seq![
            Edge { a: land.a, b: c, n: land.n },
            Edge { a: c, b: b, n: land.n.turned(1) },
        ]
    } else {
        between(rest, 1, ci) + seq![
            Edge { a: land.a, b: c, n: land.n },
            Edge { a: c, b: rest[0].b, n: land.n.turned(1) },
        ]
    }
}

/// The severed boundary of a trailing split: the next edge from the wall's first corner
/// on, the edges up to the landing, and the two edges that close the loop along the wall.
pub open spec fn trailing_loop(edges: Seq<Edge>, w: Wall, i: int, ci: int) -> Seq<Edge> {
    let e = edges[i];
    let rest = edges.skip(i + 1);
    let (a, b, c, d) = corners_met(e, w);
    let land = rest[ci];
    seq![Edge { a: a, b: rest[0].b, n: rest[0].n }] + between(rest, 1, ci) + seq![
        Edge { a: land.a, b: b, n: land.n },
        Edge { a: b, b: a, n: land.n.turned(1) },
    ]
}

/// The splice of an edge that the wall continues past its end, where the far corner
/// lands `ci` edges after the next one: the edge is drawn out to the far corner and goes
/// on with what is left of the landing edge; the other side of the wall is severed.
pub open spec fn trailing_split(edges: Seq<Edge>, w: Wall, i: int, ci: int) -> Splice {
    let e = edges[i];
    let (a, b, c, d) = corners_met(e, w);
    let land = edges.skip(i + 1)[ci];
    Splice {
        kept: seq![Edge { a: e.a, b: c, n: e.n }, Edge { a: c, b: land.b, n: land.n }],
        severed: Some(trailing_loop(edges, w, i, ci)),
        next: i + ci + 2,
    }
}

/// The splice of an edge that the wall continues past its end, where the far corner
/// lands nowhere: the edge is drawn out to the far corner, and two sides of the wall lead
/// round to what is left of the next edge.
pub open spec fn trailing_notch(edges: Seq<Edge>, w: Wall, i: int) -> Splice {
    let e = edges[i];
    let (a, b, c, d) = corners_met(e, w);
    Splice {
        kept: seq![
            Edge { a: e.a, b: c, n: e.n },
            Edge { a: c, b: b, n: e.n.turned(-1) },
            Edge { a: b, b: a, n: e.n.turned(2) },
            Edge { a: a, b: edges.skip(i + 1)[0].b, n: e.n.turned(-1) },
        ],
        severed: None,
        next: i + 2,
    }
}

/// The splice of an edge that holds the wall's first corner, where the far corner lands
/// `ci` edges after the next one: the edge stops at the wall, one side of the wall leads
/// to the landing edge, and what is left of that edge follows; the other side of the
/// wall is severed, its edges rotated by the number of the edge's facing.
pub open spec fn leading_split(edges: Seq<Edge>, w: Wall, i: int, ci: int) -> Splice {
    let e = edges[i];
    let (a, b, c, d) = corners_met(e, w);
    let land = edges.skip(i + 1)[ci];
    Splice {
        kept: seq![
            Edge { a: e.a, b: a, n: e.n },
            Edge { a: a, b: d, n: e.n.turned(1) },
            Edge { a: d, b: land.b, n: land.n },
        ],
        severed: Some(rotated(leading_loop(edges, w, i, ci), e.n.index())),
        next: i + ci + 2,
    }
}

/// The splice of an edge that holds the wall's first corner, where the far corner lands
/// nowhere: the edge stops at the wall, three sides of the wall lead round it, and the
/// edge goes on to its end.
pub open spec fn leading_notch(edges: Seq<Edge>, w: Wall, i: int) -> Splice {
    let e = edges[i];
    let (a, b, c, d) = corners_met(e, w);
    Splice {
        kept: seq![
            Edge { a: e.a, b: a, n: e.n },
            Edge { a: a, b: d, n: e.n.turned(1) },
            Edge { a: d, b: c, n: e.n },
            Edge { a: c, b: b, n: e.n.turned(-1) },
            Edge { a: b, b: e.b, n: e.n },
        ],
        severed: None,
        next: i + 1,
    }
}

/// The splice of an edge that the wall leaves alone.
pub open spec fn untouched(edges: Seq<Edge>, i: int) -> Splice {
    Splice { kept: seq![edges[i]], severed: None, next: i + 1 }
}

/// Whether the cut is defined at edge `i`: a trailing notch needs a next edge to end on,
/// and a leading split a severed boundary of as many edges as it is rotated by.
#[verifier::opaque]
pub open spec fn defined_at(edges: Seq<Edge>, w: Wall, i: int) -> bool {
    match (touch(edges[i], w), landing(edges, w, i)) {
        (Touch::Trailing, None) => i + 1 < edges.len(),
        (Touch::Leading, Some(ci)) => edges[i].n.index() <= leading_loop(edges, w, i, ci).len(),
        _ => true,
    }
}

/// What becomes of edge `i` of `edges` when `w` is cut in.
#[verifier::opaque]
pub open spec fn splice_at(edges: Seq<Edge>, w: Wall, i: int) -> Splice {
    match (touch(edges[i], w), landing(edges, w, i)) {
        (Touch::Trailing, Some(ci)) => trailing_split(edges, w, i, ci),
        (Touch::Trailing, None) => trailing_notch(edges, w, i),
        (Touch::Leading, Some(ci)) => leading_split(edges, w, i, ci),
        (Touch::Leading, None) => leading_notch(edges, w, i),
        (Touch::Clear, _) => untouched(edges, i),
    }
}

/// A splice moves on by at least one edge and never past the end of a boundary on which
/// it is defined.
pub proof fn lemma_splice_advances(edges: Seq<Edge>, w: Wall, i: int)
    requires
        0 <= i < edges.len(),
    ensures
        i < splice_at(edges, w, i).next,
        defined_at(edges, w, i) ==> splice_at(edges, w, i).next <= edges.len(),
{
    reveal(splice_at);
    reveal(defined_at);
    lemma_first_holding(edges.skip(i + 1), far_corner(edges[i], w));
}

/// The box from `lo` to `hi` and the wall share a point.
pub open spec fn box_meets(lo: Point, hi: Point, w: Wall) -> bool {
    &&& lo.x <= hi.x
    &&& lo.y <= hi.y
    &&& lo.x <= w.bottom_right.x
    &&& w.top_left.x <= hi.x
    &&& lo.y <= w.bottom_right.y
    &&& w.top_left.y <= hi.y
}

/// An edge stays clear of a proper wall exactly where the box that it spans, from
/// whichever end is the lower, stays clear of the wall's.
pub proof fn lemma_apart_by_boxes(e: Edge, w: Wall)
    requires
        w.proper(),
    ensures
        apart(e, w) == !(box_meets(e.a, e.b, w) || box_meets(e.b, e.a, w)),
{
    if box_meets(e.a, e.b, w) || box_meets(e.b, e.a, w) {
        let (lo, hi) = if box_meets(e.a, e.b, w) {
            (e.a, e.b)
        } else {
            (e.b, e.a)
        };
        let p = Point {
            x: if lo.x >= w.top_left.x {
                lo.x
            } else {
                w.top_left.x
            },
            y: if lo.y >= w.top_left.y {
                lo.y
            } else {
                w.top_left.y
            },
        };
        assert(touches(e, w, p));
    } else {
        assert forall|p: Point| !#[trigger] touches(e, w, p) by {}
    }
}

/// Whether the edge stays clear of the wall.
pub fn is_apart(e: &Edge, w: &Wall) -> (r: bool)
    requires
        w.proper(),
    ensures
        r == apart(*e, *w),
{
    proof {
        lemma_apart_by_boxes(*e, *w);
    }
    let forth: bool = e.a.x <= e.b.x && e.a.y <= e.b.y && e.a.x <= w.bottom_right.x
        && w.top_left.x <= e.b.x && e.a.y <= w.bottom_right.y && w.top_left.y <= e.b.y;
    let back: bool = e.b.x <= e.a.x && e.b.y <= e.a.y && e.b.x <= w.bottom_right.x
        && w.top_left.x <= e.a.x && e.b.y <= w.bottom_right.y && w.top_left.y <= e.a.y;
    !(forth || back)
}

/// A proper wall covers its corners.
pub proof fn lemma_corner_covered(w: Wall, k: int)
    requires
        w.proper(),
    ensures
        w.covers(w.corner(k)),
{
}

/// An edge along a grid line that stays clear of a proper wall is left alone by the cut.
pub proof fn lemma_apart_is_clear(e: Edge, w: Wall)
    requires
        w.proper(),
        e.aligned(),
        apart(e, w),
    ensures
        touch(e, w) is Clear,
{
    let (a, b, c, d) = corners_met(e, w);
    lemma_corner_covered(w, e.n.index());
    lemma_corner_covered(w, e.n.index() + 3);
    assert(e.holds(e.b));
    assert(!touches(e, w, e.b));
    assert(!touches(e, w, a));
}

/// The cut of one edge, as the engine builds it.
pub struct Cut {
    pub kept: Vec<Edge>,
    pub severed: Option<Vec<Edge>>,
    pub next: usize,
}

impl View for Cut {
    type V = Splice;

    open spec fn view(&self) -> Splice {
        Splice {
            kept: self.kept@,
            severed: match self.severed {
                Some(v) => Some(v@),
                None => None,
            },
            next: self.next as int,
        }
    }
}

/// Appends the edges `from..to` of `edges` to `into`, and nothing where the range is empty.
fn extend_between(into: &mut Vec<Edge>, edges: &[Edge], from: usize, to: usize)
    requires
        to <= edges@.len(),
    ensures
        final(into)@ == old(into)@ + between(edges@, from as int, to as int),
{
    let mut j: usize = from;
    while j < to
        invariant
            from <= j,
            from <= to ==> j <= to,
            to <= edges@.len(),
            from <= to ==> into@ == old(into)@ + edges@.subrange(from as int, j as int),
            from > to ==> into@ == old(into)@,
        decreases to - j,
    {
        into.push(edges[j]);
        proof {
            assert(edges@.subrange(from as int, j as int).push(edges@[j as int])
                =~= edges@.subrange(from as int, j as int + 1));
            assert(into@ =~= old(into)@ + edges@.subrange(from as int, j as int + 1));
        }
        j += 1;
    }
    proof {
        assert(into@ =~= old(into)@ + between(edges@, from as int, to as int));
    }
}

/// `v` with its last `k` edges moved to the front.
fn rotate_right(v: &Vec<Edge>, k: usize) -> (r: Vec<Edge>)
    requires
        k <= v@.len(),
    ensures
        r@ == rotated(v@, k as int),
{
    let n: usize = v.len();
    let mut r: Vec<Edge> = Vec::new();
    extend_between(&mut r, v.as_slice(), n - k, n);
    extend_between(&mut r, v.as_slice(), 0, n - k);
    proof {
        assert(r@ =~= rotated(v@, k as int));
    }
    r
}

/// The edges after edge `i`.
fn edges_after(edges: &Vec<Edge>, i: usize) -> (rest: &[Edge])
    requires
        i < edges.len(),
    ensures
        rest@ == edges@.skip(i as int + 1),
{
    let rest: &[Edge] = vstd::slice::slice_subrange(edges.as_slice(), i + 1, edges.len());
    proof {
        assert(rest@ =~= edges@.skip(i as int + 1));
    }
    rest
}

/// Cuts `wall` into edge `i` of `edges`, which it continues past its end.
fn splice_trailing(edges: &Vec<Edge>, wall: &Wall, i: usize) -> (r: Option<Cut>)
    requires
        i < edges.len(),
    ensures
        match landing_of(edges@, *wall, i as int, true) {
            Some(ci) => r.is_some() && r->0@ == trailing_split(edges@, *wall, i as int, ci),
            None => if i + 1 < edges@.len() {
                r.is_some() && r->0@ == trailing_notch(edges@, *wall, i as int)
            } else {
                r.is_none()
            },
        },
{
    let e: Edge = edges[i];
    let rest: &[Edge] = edges_after(edges, i);
    let k: usize = e.n.ordinal();
    let a: Point = wall.corner_at(k);
    let b: Point = wall.corner_at(k + 1);
    let c: Point = wall.corner_at(k + 2);
    proof {
        lemma_first_holding(rest@, c);
    }
    let (found, ci) = is_point_on_any_edge(c, rest);
    let mut kept: Vec<Edge> = Vec::new();
    kept.push(Edge { a: e.a, b: c, n: e.n });
    if found {
        let land: Edge = rest[ci];
        kept.push(Edge { a: c, b: land.b, n: land.n });
        let mut other: Vec<Edge> = Vec::new();
        other.push(Edge { a: a, b: rest[0].b, n: rest[0].n });
        extend_between(&mut other, rest, 1, ci);
        other.push(Edge { a: land.a, b: b, n: land.n });
        other.push(Edge { a: b, b: a, n: land.n.clockwise() });
        let cut = Cut { kept, severed: Some(other), next: i + ci + 2 };
        proof {
            let s = trailing_split(edges@, *wall, i as int, ci as int);
            assert(cut@.kept =~= s.kept);
            assert(cut@.severed->0 =~= s.severed->0);
        }
        Some(cut)
    } else if i + 1 < edges.len() {
        kept.push(Edge { a: c, b: b, n: e.n.anticlockwise() });
        kept.push(Edge { a: b, b: a, n: e.n.opposite() });
        kept.push(Edge { a: a, b: rest[0].b, n: e.n.anticlockwise() });
        let cut = Cut { kept, severed: None, next: i + 2 };
        proof {
            assert(cut@.kept =~= trailing_notch(edges@, *wall, i as int).kept);
        }
        Some(cut)
    } else {
        None
    }
}

/// Cuts `wall` into edge `i` of `edges`, which holds its first corner.
fn splice_leading(edges: &Vec<Edge>, wall: &Wall, i: usize) -> (r: Option<Cut>)
    requires
        i < edges.len(),
    ensures
        match landing_of(edges@, *wall, i as int, false) {
            Some(ci) => if edges@[i as int].n.index() <= leading_loop(
                edges@,
                *wall,
                i as int,
                ci,
            ).len() {
                r.is_some() && r->0@ == leading_split(edges@, *wall, i as int, ci)
            } else {
                r.is_none()
            },
            None => r.is_some() && r->0@ == leading_notch(edges@, *wall, i as int),
        },
{
    let e: Edge = edges[i];
    let rest: &[Edge] = edges_after(edges, i);
    let k: usize = e.n.ordinal();
    let a: Point = wall.corner_at(k);
    let b: Point = wall.corner_at(k + 1);
    let c: Point = wall.corner_at(k + 2);
    let d: Point = wall.corner_at(k + 3);
    proof {
        lemma_first_holding(rest@, d);
    }
    let mut kept: Vec<Edge> = Vec::new();
    kept.push(Edge { a: e.a, b: a, n: e.n });
    kept.push(Edge { a: a, b: d, n: e.n.clockwise() });
    let (found, ci) = is_point_on_any_edge(d, rest);
    if found {
        let land: Edge = rest[ci];
        kept.push(Edge { a: d, b: land.b, n: land.n });
        let mut other: Vec<Edge> = Vec::new();
        let start: Point;
        if b != e.b {
            other.push(Edge { a: b, b: e.b, n: e.n });
            extend_between(&mut other, rest, 0, ci);
            start = b;
        } else {
            extend_between(&mut other, rest, 1, ci);
            start = rest[0].b;
        }
        other.push(Edge { a: land.a, b: c, n: land.n });
        other.push(Edge { a: c, b: start, n: land.n.clockwise() });
        proof {
            assert(other@ =~= leading_loop(edges@, *wall, i as int, ci as int));
        }
        if k <= other.len() {
            let turned: Vec<Edge> = rotate_right(&other, k);
            let cut = Cut { kept, severed: Some(turned), next: i + ci + 2 };
            proof {
                assert(cut@.kept =~= leading_split(edges@, *wall, i as int, ci as int).kept);
            }
            Some(cut)
        } else {
            None
        }
    } else {
        kept.push(Edge { a: d, b: c, n: e.n });
        kept.push(Edge { a: c, b: b, n: e.n.anticlockwise() });
        kept.push(Edge { a: b, b: e.b, n: e.n });
        let cut = Cut { kept, severed: None, next: i + 1 };
        proof {
            assert(cut@.kept =~= leading_notch(edges@, *wall, i as int).kept);
        }
        Some(cut)
    }
}

/// Cuts `wall` into edge `i` of `edges`: `None` where the cut is not defined there.
pub fn splice(edges: &Vec<Edge>, wall: &Wall, i: usize) -> (r: Option<Cut>)
    requires
        i < edges.len(),
    ensures
        r.is_some() == defined_at(edges@, *wall, i as int),
        r matches Some(cut) ==> cut@ == splice_at(edges@, *wall, i as int),
{
    let e: Edge = edges[i];
    let k: usize = e.n.ordinal();
    let a: Point = wall.corner_at(k);
    let d: Point = wall.corner_at(k + 3);
    proof {
        reveal(splice_at);
        reveal(defined_at);
    }
    if e.b == d {
        splice_trailing(edges, wall, i)
    } else if is_point_on_edge(a, &e) {
        splice_leading(edges, wall, i)
    } else {
        let mut kept: Vec<Edge> = Vec::new();
        kept.push(e);
        let cut = Cut { kept, severed: None, next: i + 1 };
        proof {
            assert(cut@.kept =~= untouched(edges@, i as int).kept);
        }
        Some(cut)
    }
}

} // verus!
