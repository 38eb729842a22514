//! The ways in which a wall is placed in a boundary, and the search for the one at hand.

use vstd::prelude::*;
use crate::game::bar::bar_at;
use crate::game::boundary::rectilinear;
use crate::game::bridge::bridge_at;
use crate::game::edge::{is_point_on_edge, Edge};
use crate::game::facing::Facing;
use crate::game::insertion::clear_of;
use crate::game::notch::notch_at;
use crate::game::shelf::shelf_at;
use crate::game::wall::{apart, corners_met, is_apart, lemma_corner_covered, touches, Wall};

verus! {

/// The wall is placed in one of the ways in which the cut is meant to meet it: clear of
/// the boundary, against one edge, in an inward corner, or from either across to the edge
/// that faces it, and clear of every edge that does not hold it.
pub open spec fn placed(edges: Seq<Edge>, w: Wall) -> bool {
    ||| clear_of(edges, w)
    ||| exists|i: int| notch_at(edges, w, i)
    ||| exists|i: int| shelf_at(edges, w, i)
    ||| exists|i: int, k: int| bridge_at(edges, w, i, k)
    ||| exists|i: int, k: int| bar_at(edges, w, i, k)
}

/// How a wall is placed in a boundary.
#[derive(Clone, Copy, Debug, PartialEq, Eq, Structural)]
pub enum Placement {
    /// Clear of every edge.
    Clear,
    /// Against the edge with this index: the cut makes a notch.
    Notch(usize),
    /// In the inward corner after the edge with this index: the cut makes a shelf.
    Shelf(usize),
    /// From the edge with the first index across to the edge with the second: the cut
    /// makes a bridge.
    Bridge(usize, usize),
    /// From the inward corner after the edge with the first index across to the edge with
    /// the second: the cut makes a bar.
    Bar(usize, usize),
    /// In none of these ways.
    Astray,
}

impl Placement {
    /// The wall is placed in the boundary as this placement says.
    pub open spec fn fits(self, edges: Seq<Edge>, w: Wall) -> bool {
        match self {
            Placement::Clear => clear_of(edges, w),
            Placement::Notch(i) => notch_at(edges, w, i as int),
            Placement::Shelf(i) => shelf_at(edges, w, i as int),
            Placement::Bridge(i, k) => bridge_at(edges, w, i as int, k as int),
            Placement::Bar(i, k) => bar_at(edges, w, i as int, k as int),
            Placement::Astray => !placed(edges, w),
        }
    }
}

/// The indices `t` list, in rising order, edges of the boundary that touch the wall:
/// all of them where they are fewer than four.
pub open spec fn lists_touching(t: Seq<usize>, edges: Seq<Edge>, w: Wall) -> bool {
    &&& t.len() <= 4
    &&& forall|q: int| 0 <= q < t.len() ==> t[q] < edges.len() && !apart(edges[t[q] as int], w)
    &&& forall|q: int, r: int| 0 <= q < r < t.len() ==> t[q] < t[r]
    &&& t.len() < 4 ==> forall|j: int|
        0 <= j < edges.len() && !#[trigger] apart(edges[j], w) ==> exists|q: int|
            0 <= q < t.len() && t[q] == j
}

/// The indices of the edges that touch the wall, in rising order; of more than four,
/// the first four.
fn touching(edges: &Vec<Edge>, w: &Wall) -> (t: Vec<usize>)
    requires
        w.proper(),
    ensures
        lists_touching(t@, edges@, *w),
{
    let mut t: Vec<usize> = Vec::new();
    let mut j: usize = 0;
    while j < edges.len() && t.len() < 4
        invariant
            w.proper(),
            j <= edges.len(),
            t@.len() <= 4,
            forall|q: int| 0 <= q < t@.len() ==> t@[q] < j && !apart(edges@[t@[q] as int], *w),
            forall|q: int, r: int| 0 <= q < r < t@.len() ==> t@[q] < t@[r],
            forall|i: int|
                0 <= i < j && !#[trigger] apart(edges@[i], *w) ==> exists|q: int|
                    0 <= q < t@.len() && t@[q] == i,
        decreases edges.len() - j,
    {
        let ghost before = t@;
        if !is_apart(&edges[j], w) {
            t.push(j);
            proof {
                assert forall|i: int|
                    0 <= i < j + 1 && !#[trigger] apart(edges@[i], *w) implies exists|q: int|
                    0 <= q < t@.len() && t@[q] == i by {
                    if i < j {
                        let q = choose|q: int| 0 <= q < before.len() && before[q] == i;
                        assert(t@[q] == i);
                    } else {
                        assert(t@[t@.len() - 1] == i);
                    }
                }
            }
        }
        j += 1;
    }
    t
}

/// Edge `i` holds the first two corners of the wall that it meets.
pub open spec fn holds_near_side(edges: Seq<Edge>, w: Wall, i: int) -> bool {
    edges[i].holds(corners_met(edges[i], w).0) && edges[i].holds(corners_met(edges[i], w).1)
}

/// Edge `i` ends on the last corner of the wall that it meets, and the next edge turns
/// anticlockwise there and holds the first corner.
pub open spec fn holds_in_corner(edges: Seq<Edge>, w: Wall, i: int) -> bool {
    &&& edges[i].b == corners_met(edges[i], w).3
    &&& edges[i + 1].holds(corners_met(edges[i], w).0)
    &&& edges[i + 1].n == edges[i].n.turned(-1)
}

/// Whether edge `i` holds the first two corners of the wall that it meets.
fn has_near_side(edges: &Vec<Edge>, w: &Wall, i: usize) -> (r: bool)
    requires
        i < edges.len(),
    ensures
        r == holds_near_side(edges@, *w, i as int),
{
    let e: Edge = edges[i];
    let k: usize = e.n.ordinal();
    is_point_on_edge(w.corner_at(k), &e) && is_point_on_edge(w.corner_at(k + 1), &e)
}

/// Whether the wall lies in the corner after edge `i`.
fn has_in_corner(edges: &Vec<Edge>, w: &Wall, i: usize) -> (r: bool)
    requires
        i + 1 < edges.len(),
    ensures
        r == holds_in_corner(edges@, *w, i as int),
{
    let e: Edge = edges[i];
    let g: Edge = edges[i + 1];
    let k: usize = e.n.ordinal();
    e.b == w.corner_at(k + 3) && is_point_on_edge(w.corner_at(k), &g) && g.n
        == e.n.anticlockwise()
}

/// Whether edge `k` holds the two corners of the wall that come `from` and `from + 1`
/// places after the first that edge `i` meets, and its facing is that of edge `i` after
/// `quarters` quarter turns.
fn has_far_side(
    edges: &Vec<Edge>,
    w: &Wall,
    i: usize,
    k: usize,
    from: usize,
    quarters: usize,
) -> (r: bool)
    requires
        i < edges.len(),
        k < edges.len(),
        from <= 2,
        quarters <= 3,
    ensures
        r == (edges@[k as int].holds(w.corner(edges@[i as int].n.index() + from))
            && edges@[k as int].holds(w.corner(edges@[i as int].n.index() + from + 1))
            && edges@[k as int].n == edges@[i as int].n.turned(quarters as int)),
{
    let e: Edge = edges[i];
    let f: Edge = edges[k];
    let c: usize = e.n.ordinal();
    let turned: Facing = if quarters == 0 {
        e.n
    } else if quarters == 1 {
        e.n.clockwise()
    } else if quarters == 2 {
        e.n.opposite()
    } else {
        e.n.anticlockwise()
    };
    proof {
        e.n.lemma_turns_compose(0, 0);
        e.n.lemma_turns_compose(-1, 4);
    }
    is_point_on_edge(w.corner_at(c + from), &f) && is_point_on_edge(w.corner_at(c + from + 1), &f)
        && f.n == turned
}

/// Which edges touch a wall that is placed: the ones that hold it, and no others.
pub proof fn lemma_placed_touches(edges: Seq<Edge>, w: Wall)
    requires
        rectilinear(edges),
        w.proper(),
    ensures
        forall|i: int| #[trigger] notch_at(edges, w, i) ==> !apart(edges[i], w),
        forall|i: int|
            #[trigger] shelf_at(edges, w, i) ==> !apart(edges[i], w) && !apart(edges[i + 1], w),
        forall|i: int, k: int|
            #[trigger] bridge_at(edges, w, i, k) ==> !apart(edges[i], w) && !apart(edges[k], w),
        forall|i: int, k: int|
            #[trigger] bar_at(edges, w, i, k) ==> !apart(edges[i], w) && !apart(edges[i + 1], w)
                && !apart(edges[k], w),
{
    assert forall|i: int| 0 <= i < edges.len() implies !apart(
        edges[i],
        w,
    ) || !(#[trigger] edges[i].holds(corners_met(edges[i], w).0)) by {
        lemma_corner_covered(w, edges[i].n.index());
        if edges[i].holds(corners_met(edges[i], w).0) {
            assert(touches(edges[i], w, corners_met(edges[i], w).0));
        }
    }
    assert forall|i: int| #[trigger] notch_at(edges, w, i) implies !apart(edges[i], w) by {
        lemma_holder_touches(edges[i], w, edges[i].n.index());
    }
    assert forall|i: int| #[trigger] shelf_at(edges, w, i) implies !apart(edges[i], w)
        && !apart(edges[i + 1], w) by {
        assert(edges[i].aligned());
        lemma_holder_touches(edges[i], w, edges[i].n.index() + 3);
        lemma_holder_touches(edges[i + 1], w, edges[i].n.index());
    }
    assert forall|i: int, k: int| #[trigger] bridge_at(edges, w, i, k) implies !apart(
        edges[i],
        w,
    ) && !apart(edges[k], w) by {
        lemma_holder_touches(edges[i], w, edges[i].n.index());
        lemma_holder_touches(edges[k], w, edges[i].n.index() + 2);
    }
    assert forall|i: int, k: int| #[trigger] bar_at(edges, w, i, k) implies !apart(edges[i], w)
        && !apart(edges[i + 1], w) && !apart(edges[k], w) by {
        assert(edges[i].aligned());
        lemma_holder_touches(edges[i], w, edges[i].n.index() + 3);
        lemma_holder_touches(edges[i + 1], w, edges[i].n.index());
        lemma_holder_touches(edges[k], w, edges[i].n.index() + 1);
    }
}

/// An edge that holds a corner of a proper wall touches the wall.
pub proof fn lemma_holder_touches(e: Edge, w: Wall, k: int)
    requires
        w.proper(),
        e.holds(w.corner(k)),
    ensures
        !apart(e, w),
{
    lemma_corner_covered(w, k);
    assert(touches(e, w, w.corner(k)));
}

/// How the wall is placed in the boundary.
pub fn placement(edges: &Vec<Edge>, wall: &Wall) -> (r: Placement)
    requires
        rectilinear(edges@),
        wall.proper(),
    ensures
        r.fits(edges@, *wall),
{
    let t: Vec<usize> = touching(edges, wall);
    proof {
        lemma_placed_touches(edges@, *wall);
    }
    if t.len() == 0 {
        Placement::Clear
    } else if t.len() == 1 {
        let i: usize = t[0];
        if has_near_side(edges, wall, i) {
            Placement::Notch(i)
        } else {
            proof {
                lemma_astray(t@, edges@, *wall);
            }
            Placement::Astray
        }
    } else if t.len() == 2 {
        let i: usize = t[0];
        let k: usize = t[1];
        if k == i + 1 && has_in_corner(edges, wall, i) {
            Placement::Shelf(i)
        } else if has_near_side(edges, wall, i) && has_far_side(edges, wall, i, k, 2, 2) {
            Placement::Bridge(i, k)
        } else {
            proof {
                lemma_astray(t@, edges@, *wall);
            }
            Placement::Astray
        }
    } else if t.len() == 3 {
        let i: usize = t[0];
        let k: usize = t[2];
        if t[1] == i + 1 && has_in_corner(edges, wall, i) && has_far_side(
            edges,
            wall,
            i,
            k,
            1,
            1,
        ) {
            Placement::Bar(i, k)
        } else {
            proof {
                lemma_astray(t@, edges@, *wall);
            }
            Placement::Astray
        }
    } else {
        proof {
            lemma_astray(t@, edges@, *wall);
        }
        Placement::Astray
    }
}

/// The wall is placed in none of the ways: the edges that touch it are too many, or
/// they do not hold it as the way that goes with their number asks.
pub proof fn lemma_astray(t: Seq<usize>, edges: Seq<Edge>, w: Wall)
    requires
        rectilinear(edges),
        w.proper(),
        lists_touching(t, edges, w),
        t.len() > 0,
        t.len() == 1 ==> !holds_near_side(edges, w, t[0] as int),
        t.len() == 2 ==> !(t[1] == t[0] + 1 && holds_in_corner(edges, w, t[0] as int)),
        t.len() == 2 ==> !(holds_near_side(edges, w, t[0] as int) && edges[t[1] as int].holds(
            corners_met(edges[t[0] as int], w).2,
        ) && edges[t[1] as int].holds(corners_met(edges[t[0] as int], w).3) && edges[t[1] as int].n
            == edges[t[0] as int].n.turned(2)),
        t.len() == 3 ==> !(t[1] == t[0] + 1 && holds_in_corner(edges, w, t[0] as int)
            && edges[t[2] as int].holds(corners_met(edges[t[0] as int], w).1)
            && edges[t[2] as int].holds(corners_met(edges[t[0] as int], w).2)
            && edges[t[2] as int].n == edges[t[0] as int].n.turned(1)),
    ensures
        !placed(edges, w),
{
    lemma_placed_touches(edges, w);
    assert(!apart(edges[t[0] as int], w));
    assert(!clear_of(edges, w));
    assert forall|i: int| !notch_at(edges, w, i) by {
        if notch_at(edges, w, i) {
            lemma_listed(t, edges, w, i, i, i);
        }
    }
    assert forall|i: int| !shelf_at(edges, w, i) by {
        if shelf_at(edges, w, i) {
            lemma_listed(t, edges, w, i, i + 1, i + 1);
        }
    }
    assert forall|i: int, k: int| !bridge_at(edges, w, i, k) by {
        if bridge_at(edges, w, i, k) {
            lemma_listed(t, edges, w, i, k, k);
        }
    }
    assert forall|i: int, k: int| !bar_at(edges, w, i, k) by {
        if bar_at(edges, w, i, k) {
            lemma_listed(t, edges, w, i, i + 1, k);
        }
    }
}

/// Where the edges `x <= y <= z` touch the wall and all others stay clear of it, the
/// list of the edges that touch it holds these and nothing else.
pub proof fn lemma_listed(t: Seq<usize>, edges: Seq<Edge>, w: Wall, x: int, y: int, z: int)
    requires
        lists_touching(t, edges, w),
        0 <= x <= y <= z < edges.len(),
        !apart(edges[x], w),
        !apart(edges[y], w),
        !apart(edges[z], w),
        forall|j: int|
            0 <= j < edges.len() && j != x && j != y && j != z ==> #[trigger] apart(edges[j], w),
    ensures
        t.len() <= 3,
        t.len() >= 1,
        t[0] == x,
        t[t.len() - 1] == z,
        x < y < z ==> t.len() == 3 && t[1] == y,
        x == y && y < z ==> t.len() == 2,
        x < y && y == z ==> t.len() == 2,
        x == y && y == z ==> t.len() == 1,
{
    assert forall|q: int| 0 <= q < t.len() implies t[q] == x || t[q] == y || t[q] == z by {
        if t[q] != x && t[q] != y && t[q] != z {
            assert(apart(edges[t[q] as int], w));
        }
    }
    if t.len() == 4 {
        assert(t[0] < t[1] < t[2] < t[3]);
    }
    let qx = choose|q: int| 0 <= q < t.len() && t[q] == x;
    let qy = choose|q: int| 0 <= q < t.len() && t[q] == y;
    let qz = choose|q: int| 0 <= q < t.len() && t[q] == z;
    assert(t[qx] == x && t[qy] == y && t[qz] == z);
    if t.len() >= 2 {
        assert(t[0] < t[1]);
    }
    if t.len() >= 3 {
        assert(t[1] < t[2]);
        assert(t[0] < t[2]);
    }
}

} // verus!
