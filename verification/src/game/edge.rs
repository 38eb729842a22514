//! Edges, and what makes a sequence of them a boundary.

use vstd::prelude::*;
use crate::game::facing::Facing;
use crate::game::point::{point_ge, point_le, Point};

verus! {

/// One segment of a boundary, walked from `a` to `b`, with the region on the side `n`.
#[derive(Clone, Copy, Debug, PartialEq, Eq, Structural)]
pub struct Edge {
    pub a: Point,
    pub b: Point,
    pub n: Facing,
}

impl Edge {
    /// `p` lies in the box spanned by the two ends. For an edge along a grid line that box
    /// is the edge itself, ends included.
    pub open spec fn holds(self, p: Point) -> bool {
        (self.a.within(p) && p.within(self.b)) || (self.b.within(p) && p.within(self.a))
    }

    /// The edge runs along a grid line, has length, and is walked with the region on the
    /// right: a `Down` edge towards greater `x`, a `Left` edge towards greater `y`, an `Up`
    /// edge towards smaller `x`, a `Right` edge towards smaller `y`.
    pub open spec fn aligned(self) -> bool {
        match self.n {
            Facing::Down => self.a.y == self.b.y && self.a.x < self.b.x,
            Facing::Left => self.a.x == self.b.x && self.a.y < self.b.y,
            Facing::Up => self.a.y == self.b.y && self.a.x > self.b.x,
            Facing::Right => self.a.x == self.b.x && self.a.y > self.b.y,
        }
    }
}

/// The least index of an edge of `edges` that holds `p`, if there is one.
pub open spec fn first_holding(edges: Seq<Edge>, p: Point) -> Option<int> {
    if exists|i: int| 0 <= i < edges.len() && edges[i].holds(p) {
        Some(choose|i: int| 0 <= i < edges.len() && #[trigger] edges[i].holds(p)
            && forall|j: int| 0 <= j < i ==> !#[trigger] edges[j].holds(p))
    } else {
        None
    }
}

/// What `first_holding` finds is an index that holds `p` with none before it, and it
/// finds nothing only where no edge holds `p`.
pub proof fn lemma_first_holding(edges: Seq<Edge>, p: Point)
    ensures
        match first_holding(edges, p) {
            Some(i) => 0 <= i < edges.len() && edges[i].holds(p)
                && forall|j: int| 0 <= j < i ==> !#[trigger] edges[j].holds(p),
            None => forall|j: int| 0 <= j < edges.len() ==> !#[trigger] edges[j].holds(p),
        },
{
    if exists|i: int| 0 <= i < edges.len() && edges[i].holds(p) {
        let w = choose|i: int| 0 <= i < edges.len() && edges[i].holds(p);
        lemma_least_holding(edges, p, w);
    }
}

proof fn lemma_least_holding(edges: Seq<Edge>, p: Point, w: int)
    requires
        0 <= w < edges.len(),
        edges[w].holds(p),
    ensures
        exists|i: int| 0 <= i < edges.len() && #[trigger] edges[i].holds(p)
            && forall|j: int| 0 <= j < i ==> !#[trigger] edges[j].holds(p),
    decreases w,
{
    if exists|k: int| 0 <= k < w && edges[k].holds(p) {
        let k = choose|k: int| 0 <= k < w && edges[k].holds(p);
        lemma_least_holding(edges, p, k);
    } else {
        assert(forall|j: int| 0 <= j < w ==> !#[trigger] edges[j].holds(p));
    }
}

/// Any index that holds `p` with none before it is the one `first_holding` finds.
pub proof fn lemma_first_holding_is(edges: Seq<Edge>, p: Point, i: int)
    requires
        0 <= i < edges.len(),
        edges[i].holds(p),
        forall|j: int| 0 <= j < i ==> !#[trigger] edges[j].holds(p),
    ensures
        first_holding(edges, p) == Some(i),
{
    lemma_first_holding(edges, p);
}

/// Whether `p` lies on the edge `e`, ends included.
pub fn is_point_on_edge(p: Point, e: &Edge) -> (r: bool)
    ensures
        r == e.holds(p),
{
    point_ge(p, e.a) && point_le(p, e.b) || point_ge(p, e.b) && point_le(p, e.a)
}

/// The first edge of `edges` on which `p` lies: `(true, i)` with its index, or
/// `(false, 0)` where `p` lies on none.
pub fn is_point_on_any_edge(p: Point, edges: &[Edge]) -> (r: (bool, usize))
    ensures
        r.0 ==> first_holding(edges@, p) == Some(r.1 as int),
        !r.0 ==> first_holding(edges@, p).is_none() && r.1 == 0,
{
    let mut i: usize = 0;
    while i < edges.len()
        invariant
            i <= edges.len(),
            forall|j: int| 0 <= j < i ==> !#[trigger] edges@[j].holds(p),
        decreases edges.len() - i,
    {
        if is_point_on_edge(p, &edges[i]) {
            proof {
                lemma_first_holding_is(edges@, p, i as int);
            }
            return (true, i);
        }
        i += 1;
    }
    proof {
        lemma_first_holding(edges@, p);
    }
    (false, 0)
}

} // verus!
