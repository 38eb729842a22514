//! The wall that lies in an inward corner of the boundary: it draws one edge out and
//! cuts a step into the next.

use vstd::prelude::*;
use crate::game::area::{accepts_from, kept_from, region_within, severed_from, Region};
use crate::game::boundary::{
    following, joined, lemma_round_the_loop, share, simple, sound, turns_at,
};
use crate::game::edge::{lemma_first_holding, Edge};
use crate::game::insertion::lemma_one_splice;
use crate::game::point::Point;
use crate::game::wall::{
    apart, corners_met, defined_at, far_corner, landing, lemma_apart_is_clear,
    lemma_corner_covered, splice_at, touch, touches, Wall,
};

verus! {

/// The wall lies in the inward corner between edge `i` and the next edge: edge `i` ends
/// on the last corner of the wall that it meets, the next edge turns anticlockwise there
/// and holds the first corner, and every other edge of the boundary stays clear of the
/// wall.
pub open spec fn shelf_at(edges: Seq<Edge>, w: Wall, i: int) -> bool {
    &&& 0 <= i
    &&& i + 1 < edges.len()
    &&& edges[i].b == corners_met(edges[i], w).3
    &&& edges[i + 1].holds(corners_met(edges[i], w).0)
    &&& edges[i + 1].n == edges[i].n.turned(-1)
    &&& forall|j: int|
        0 <= j < edges.len() && j != i && j != i + 1 ==> #[trigger] apart(edges[j], w)
}

/// The four edges that take the place of the edge `e` and the next edge `g` where `w`
/// lies in the corner between them: `e` drawn out along the wall, the two sides of the
/// wall that lead round it, and what is left of `g` after the wall.
pub open spec fn shelf(e: Edge, g: Edge, w: Wall) -> Seq<Edge> {
    let (a, b, c, d) = corners_met(e, w);
    seq![
        Edge { a: e.a, b: c, n: e.n },
        Edge { a: c, b: b, n: e.n.turned(-1) },
        Edge { a: b, b: a, n: e.n.turned(2) },
        Edge { a: a, b: g.b, n: e.n.turned(-1) },
    ]
}

/// The boundary `edges` with `w` in the corner between edge `i` and the next edge.
pub open spec fn shelved(edges: Seq<Edge>, w: Wall, i: int) -> Seq<Edge> {
    edges.subrange(0, i) + shelf(edges[i], edges[i + 1], w) + edges.subrange(
        i + 2,
        edges.len() as int,
    )
}

/// The wall lies in the corner between the edge `e` and the edge `g` as a shelf does:
/// both run along grid lines, `g` starts where `e` ends, on the last corner of the wall
/// that `e` meets, turns anticlockwise there, and holds the first corner off its end.
pub open spec fn cornered(e: Edge, g: Edge, w: Wall) -> bool {
    &&& e.aligned()
    &&& g.aligned()
    &&& w.proper()
    &&& e.b == corners_met(e, w).3
    &&& g.a == e.b
    &&& g.n == e.n.turned(-1)
    &&& g.holds(corners_met(e, w).0)
    &&& corners_met(e, w).0 != g.b
}

/// The two edges of a sound boundary between which a shelf lies hold it in their corner.
pub proof fn lemma_shelf_in_corner(edges: Seq<Edge>, w: Wall, i: int)
    requires
        sound(edges),
        w.proper(),
        shelf_at(edges, w, i),
    ensures
        cornered(edges[i], edges[i + 1], w),
        edges.len() >= 3,
        following(edges, i + 1) != i,
{
    let e = edges[i];
    let g = edges[i + 1];
    lemma_round_the_loop(edges, i);
    lemma_round_the_loop(edges, i + 1);
    assert(e.aligned());
    assert(g.aligned());
    assert(turns_at(edges, i + 1));
    let after = edges[following(edges, i + 1)];
    assert(after.aligned());
    e.n.lemma_turns_compose(-1, 1);
    e.n.lemma_turns_compose(-1, -1);
    if following(edges, i + 1) != i {
        assert(apart(after, w));
        assert(!touches(after, w, g.b));
        lemma_corner_covered(w, e.n.index());
    }
}

/// At the edge that ends on the wall of a shelf, the splice is the shelf.
proof fn lemma_shelf_splice(edges: Seq<Edge>, w: Wall, i: int)
    requires
        sound(edges),
        w.proper(),
        shelf_at(edges, w, i),
    ensures
        defined_at(edges, w, i),
        splice_at(edges, w, i).kept == shelf(edges[i], edges[i + 1], w),
        splice_at(edges, w, i).severed.is_none(),
        splice_at(edges, w, i).next == i + 2,
{
    lemma_shelf_in_corner(edges, w, i);
    let e = edges[i];
    let rest = edges.skip(i + 1);
    let c = corners_met(e, w).2;
    assert(touch(e, w) is Trailing);
    assert(far_corner(e, w) == c);
    lemma_corner_covered(w, e.n.index() + 2);
    lemma_first_holding(rest, c);
    if landing(edges, w, i).is_some() {
        let ci = landing(edges, w, i)->0;
        assert(rest[ci] == edges[i + 1 + ci]);
        if ci > 0 {
            assert(apart(edges[i + 1 + ci], w));
            assert(!touches(edges[i + 1 + ci], w, c));
        }
    }
    assert(rest[0] == edges[i + 1]);
    assert(landing(edges, w, i).is_none());
    reveal(splice_at);
    reveal(defined_at);
    assert(splice_at(edges, w, i).kept =~= shelf(edges[i], edges[i + 1], w));
}

/// A wall that lies in an inward corner of a sound boundary, clear of all other edges,
/// is accepted; the cut keeps the boundary with the shelf in that corner and severs
/// nothing.
pub proof fn lemma_shelf_is_cut(edges: Seq<Edge>, w: Wall, i: int)
    requires
        sound(edges),
        w.proper(),
        shelf_at(edges, w, i),
    ensures
        accepts_from(edges, w, 0),
        kept_from(edges, w, 0) == shelved(edges, w, i),
        severed_from(edges, w, 0).len() == 0,
{
    let n = edges.len() as int;
    assert forall|j: int| 0 <= j < n && j != i && j != i + 1 implies #[trigger] touch(
        edges[j],
        w,
    ) is Clear by {
        assert(edges[j].aligned());
        assert(apart(edges[j], w));
        lemma_apart_is_clear(edges[j], w);
    }
    lemma_shelf_splice(edges, w, i);
    lemma_one_splice(edges, w, i);
}

/// Cutting a wall that lies in an inward corner of a sound boundary yields exactly one
/// region: the one within the boundary with the shelf.
pub proof fn lemma_shelf_yields_one_region(area: Region, w: Wall, i: int)
    requires
        sound(area.edges),
        w.proper(),
        shelf_at(area.edges, w, i),
    ensures
        area.accepts(w),
        area.divided(w) == seq![region_within(shelved(area.edges, w, i), area.balls)],
{
    lemma_shelf_is_cut(area.edges, w, i);
    assert(severed_from(area.edges, w, 0) =~= Seq::<Seq<Edge>>::empty());
    assert(area.divided(w) =~= seq![region_within(shelved(area.edges, w, i), area.balls)]);
}

/// The four edges of a shelf run along grid lines.
pub proof fn lemma_shelf_aligned(e: Edge, g: Edge, w: Wall, t: int)
    requires
        cornered(e, g, w),
        0 <= t < 4,
    ensures
        shelf(e, g, w)[t].aligned(),
{
}

/// Where the four edges of a shelf lie: the first on the edge that is drawn out or on
/// the wall, the next two on the wall, the last on the next edge, off its start.
pub proof fn lemma_shelf_pieces(e: Edge, g: Edge, w: Wall, t: int, p: Point)
    requires
        cornered(e, g, w),
        0 <= t < 4,
        shelf(e, g, w)[t].holds(p),
    ensures
        t == 0 ==> (e.holds(p) && p != e.b) || w.covers(p),
        1 <= t <= 2 ==> w.covers(p),
        t == 3 ==> g.holds(p) && p != g.a,
{
}

/// Two of the four edges of a shelf share a point only where one follows the other, and
/// then only the corner between them.
pub proof fn lemma_shelf_pieces_apart(e: Edge, g: Edge, w: Wall, t: int, u: int, p: Point)
    requires
        cornered(e, g, w),
        0 <= t < u < 4,
        shelf(e, g, w)[t].holds(p),
        shelf(e, g, w)[u].holds(p),
    ensures
        u == t + 1,
        p == shelf(e, g, w)[t].b,
{
}

/// The edge of the boundary from which edge `q` of the boundary with the shelf comes,
/// where it is none of the four edges of the shelf.
pub open spec fn shelf_source(i: int, q: int) -> int {
    if q < i {
        q
    } else {
        q - 2
    }
}

/// A sound boundary with a shelf in one of its corners is sound.
pub proof fn lemma_shelved_is_sound(edges: Seq<Edge>, w: Wall, i: int)
    requires
        sound(edges),
        w.proper(),
        shelf_at(edges, w, i),
    ensures
        sound(shelved(edges, w, i)),
{
    let n = edges.len() as int;
    let e = edges[i];
    let g = edges[i + 1];
    let pieces = shelf(e, g, w);
    let out = shelved(edges, w, i);
    lemma_shelf_in_corner(edges, w, i);
    lemma_round_the_loop(edges, i);
    lemma_round_the_loop(edges, i + 1);
    assert(out.len() == n + 2);
    assert forall|q: int| 0 <= q < out.len() implies #[trigger] out[q].aligned() by {
        if i <= q < i + 4 {
            assert(out[q] == pieces[q - i]);
            lemma_shelf_aligned(e, g, w, q - i);
        } else {
            assert(out[q] == edges[shelf_source(i, q)]);
            assert(edges[shelf_source(i, q)].aligned());
        }
    }
    assert forall|q: int| 0 <= q < out.len() - 1 implies #[trigger] joined(out, q) by {
        if q < i {
            assert(joined(edges, q));
        } else if q < i + 3 {
            assert(out[q] == pieces[q - i]);
            assert(out[q + 1] == pieces[q + 1 - i]);
        } else {
            assert(joined(edges, q - 2));
        }
    }
    assert(out.last().b == out[0].a);
    assert forall|q: int| 0 <= q < out.len() implies #[trigger] turns_at(out, q) by {
        let r = following(out, q);
        if i <= q < i + 3 {
            assert(out[q] == pieces[q - i]);
            assert(out[r] == pieces[r - i]);
            e.n.lemma_turns_compose(-1, -1);
            e.n.lemma_turns_compose(2, 1);
        } else if q == i + 3 {
            assert(turns_at(edges, i + 1));
            assert(out[q].n == g.n);
            assert(out[r].n == edges[following(edges, i + 1)].n);
        } else {
            let j = shelf_source(i, q);
            assert(turns_at(edges, j));
            assert(out[q] == edges[j]);
            assert(out[r].n == edges[following(edges, j)].n);
        }
    }
}

/// A sound boundary that does not touch itself still does not with a shelf in one of
/// its corners.
pub proof fn lemma_shelved_is_simple(edges: Seq<Edge>, w: Wall, i: int)
    requires
        sound(edges),
        simple(edges),
        w.proper(),
        shelf_at(edges, w, i),
    ensures
        simple(shelved(edges, w, i)),
{
    let n = edges.len() as int;
    let e = edges[i];
    let g = edges[i + 1];
    let pieces = shelf(e, g, w);
    let out = shelved(edges, w, i);
    lemma_shelf_in_corner(edges, w, i);
    lemma_round_the_loop(edges, i);
    lemma_round_the_loop(edges, i + 1);
    assert(out.len() == n + 2);
    assert forall|q: int, r: int, p: Point|
        0 <= q < r < out.len() && #[trigger] share(out, q, r, p) implies (r == q + 1 && p
            == out[q].b) || (q == 0 && r == out.len() - 1 && p == out[0].a) by {
        let q_cut = i <= q < i + 4;
        let r_cut = i <= r < i + 4;
        if q_cut && r_cut {
            assert(out[q] == pieces[q - i]);
            assert(out[r] == pieces[r - i]);
            lemma_shelf_pieces_apart(e, g, w, q - i, r - i, p);
        } else if !q_cut && !r_cut {
            let j = shelf_source(i, q);
            let k = shelf_source(i, r);
            assert(out[q] == edges[j]);
            assert(out[r] == edges[k]);
            assert(share(edges, j, k, p));
        } else {
            let t = if q_cut { q - i } else { r - i };
            let j = if q_cut { shelf_source(i, r) } else { shelf_source(i, q) };
            assert(out[if q_cut { q } else { r }] == pieces[t]);
            assert(out[if q_cut { r } else { q }] == edges[j]);
            lemma_shelf_pieces(e, g, w, t, p);
            assert(apart(edges[j], w));
            assert(!touches(edges[j], w, p));
            if t == 0 {
                if j < i {
                    assert(share(edges, j, i, p));
                } else {
                    assert(share(edges, i, j, p));
                }
            } else if t == 3 {
                if j < i + 1 {
                    assert(share(edges, j, i + 1, p));
                } else {
                    assert(share(edges, i + 1, j, p));
                }
            }
        }
    }
}

/// Laying a shelf into a corner of a sound boundary that does not touch itself leaves
/// such a boundary.
pub proof fn lemma_shelf_keeps_shape(edges: Seq<Edge>, w: Wall, i: int)
    requires
        sound(edges),
        simple(edges),
        w.proper(),
        shelf_at(edges, w, i),
    ensures
        sound(shelved(edges, w, i)),
        simple(shelved(edges, w, i)),
{
    lemma_shelved_is_sound(edges, w, i);
    lemma_shelved_is_simple(edges, w, i);
}

} // verus!
