//! The wall that touches one edge only: it cuts a notch into the boundary.

use vstd::prelude::*;
use crate::game::area::{accepts_from, kept_from, region_within, severed_from, Region};
use crate::game::boundary::{
    following, joined, lemma_round_the_loop, preceding, share, simple, sound, turns_at,
};
use crate::game::edge::{lemma_first_holding, Edge};
use crate::game::insertion::lemma_one_splice;
use crate::game::point::Point;
use crate::game::wall::{
    apart, corners_met, defined_at, far_corner, landing, lemma_apart_is_clear,
    lemma_corner_covered, splice_at, touch, touches, Wall,
};

verus! {

/// The wall lies against edge `i`, which holds one whole side of it, and every other
/// edge of the boundary stays clear of it.
pub open spec fn notch_at(edges: Seq<Edge>, w: Wall, i: int) -> bool {
    &&& 0 <= i < edges.len()
    &&& edges[i].holds(corners_met(edges[i], w).0)
    &&& edges[i].holds(corners_met(edges[i], w).1)
    &&& forall|j: int| 0 <= j < edges.len() && j != i ==> #[trigger] apart(edges[j], w)
}

/// The five edges that take the place of the edge `e` into which `w` cuts a notch: what
/// is left of `e` before the wall, the three sides of the wall that `e` does not hold,
/// and what is left of `e` after the wall.
pub open spec fn notch(e: Edge, w: Wall) -> Seq<Edge> {
    let (a, b, c, d) = corners_met(e, w);
    seq![
        Edge { a: e.a, b: a, n: e.n },
        Edge { a: a, b: d, n: e.n.turned(1) },
        Edge { a: d, b: c, n: e.n },
        Edge { a: c, b: b, n: e.n.turned(-1) },
        Edge { a: b, b: e.b, n: e.n },
    ]
}

/// The boundary `edges` with a notch for `w` cut into edge `i`.
pub open spec fn notched(edges: Seq<Edge>, w: Wall, i: int) -> Seq<Edge> {
    edges.subrange(0, i) + notch(edges[i], w) + edges.subrange(i + 1, edges.len() as int)
}

/// A wall that lies against one edge of a sound boundary, clear of all others, is
/// accepted; the cut keeps the boundary with a notch in that edge and severs nothing.
pub proof fn lemma_notch_is_cut(edges: Seq<Edge>, w: Wall, i: int)
    requires
        sound(edges),
        w.proper(),
        notch_at(edges, w, i),
    ensures
        accepts_from(edges, w, 0),
        kept_from(edges, w, 0) == notched(edges, w, i),
        severed_from(edges, w, 0).len() == 0,
{
    let n = edges.len() as int;
    let e = edges[i];
    assert forall|j: int| 0 <= j < n && j != i implies #[trigger] touch(edges[j], w) is Clear by {
        assert(edges[j].aligned());
        assert(apart(edges[j], w));
        lemma_apart_is_clear(edges[j], w);
    }
    lemma_notch_splice(edges, w, i);
    lemma_one_splice(edges, w, i);
}

/// At the edge against which the wall lies, the splice is the notch.
proof fn lemma_notch_splice(edges: Seq<Edge>, w: Wall, i: int)
    requires
        sound(edges),
        w.proper(),
        notch_at(edges, w, i),
    ensures
        defined_at(edges, w, i),
        splice_at(edges, w, i).kept == notch(edges[i], w),
        splice_at(edges, w, i).severed.is_none(),
        splice_at(edges, w, i).next == i + 1,
{
    reveal(splice_at);
    reveal(defined_at);
    let e = edges[i];
    let rest = edges.skip(i + 1);
    let (a, b, c, d) = corners_met(e, w);
    assert(e.aligned());
    assert(w.covers(d));
    lemma_first_holding(rest, far_corner(e, w));
    assert(touch(e, w) is Leading);
    if landing(edges, w, i).is_some() {
        let ci = landing(edges, w, i)->0;
        assert(rest[ci] == edges[i + 1 + ci]);
        assert(apart(edges[i + 1 + ci], w));
        assert(!touches(edges[i + 1 + ci], w, d));
    }
}

/// Cutting a wall that lies against one edge of a sound boundary, clear of all others,
/// yields exactly one region: the one within the notched boundary.
pub proof fn lemma_notch_yields_one_region(area: Region, w: Wall, i: int)
    requires
        sound(area.edges),
        w.proper(),
        notch_at(area.edges, w, i),
    ensures
        area.accepts(w),
        area.divided(w) == seq![region_within(notched(area.edges, w, i), area.balls)],
{
    lemma_notch_is_cut(area.edges, w, i);
    assert(severed_from(area.edges, w, 0) =~= Seq::<Seq<Edge>>::empty());
    assert(area.divided(w) =~= seq![region_within(notched(area.edges, w, i), area.balls)]);
}

/// The wall of a notch lies strictly within its edge: both corners on the edge are off
/// the ends of the edge.
pub proof fn lemma_notch_within_edge(edges: Seq<Edge>, w: Wall, i: int)
    requires
        sound(edges),
        w.proper(),
        notch_at(edges, w, i),
    ensures
        corners_met(edges[i], w).0 != edges[i].a,
        corners_met(edges[i], w).1 != edges[i].b,
{
    let e = edges[i];
    lemma_round_the_loop(edges, i);
    let before = edges[preceding(edges, i)];
    let after = edges[following(edges, i)];
    assert(before.aligned());
    assert(after.aligned());
    assert(apart(before, w));
    assert(!touches(before, w, e.a));
    assert(apart(after, w));
    assert(!touches(after, w, e.b));
    lemma_corner_covered(w, e.n.index());
    lemma_corner_covered(w, e.n.index() + 1);
}

/// The wall sits on the edge `e` as the wall of a notch does: `e` runs along a grid line
/// and holds the first two corners that it meets, both off its ends.
pub open spec fn seated(e: Edge, w: Wall) -> bool {
    &&& e.aligned()
    &&& w.proper()
    &&& e.holds(corners_met(e, w).0)
    &&& e.holds(corners_met(e, w).1)
    &&& corners_met(e, w).0 != e.a
    &&& corners_met(e, w).1 != e.b
}

/// Where the five edges of a notch lie: the sides of the wall on the wall, the two
/// others on the edge that was cut, the first off its end and the last off its start.
pub proof fn lemma_notch_pieces(e: Edge, w: Wall, t: int, p: Point)
    requires
        seated(e, w),
        0 <= t < 5,
        notch(e, w)[t].holds(p),
    ensures
        1 <= t <= 3 ==> w.covers(p),
        t == 0 || t == 4 ==> e.holds(p),
        t == 0 ==> p != e.b,
        t == 4 ==> p != e.a,
{
}

/// The five edges of a notch run along grid lines.
pub proof fn lemma_notch_aligned(e: Edge, w: Wall, t: int)
    requires
        seated(e, w),
        0 <= t < 5,
    ensures
        notch(e, w)[t].aligned(),
{
}

/// Two of the five edges of a notch share a point only where one follows the other, and
/// then only the corner between them.
pub proof fn lemma_notch_pieces_apart(e: Edge, w: Wall, t: int, u: int, p: Point)
    requires
        seated(e, w),
        0 <= t < u < 5,
        notch(e, w)[t].holds(p),
        notch(e, w)[u].holds(p),
    ensures
        u == t + 1,
        p == notch(e, w)[t].b,
{
}

/// The edge of the boundary from which edge `q` of the notched boundary comes, where it
/// is none of the five edges of the notch.
pub open spec fn notch_source(i: int, q: int) -> int {
    if q < i {
        q
    } else {
        q - 4
    }
}

/// A sound boundary with a notch cut into it is sound.
pub proof fn lemma_notched_is_sound(edges: Seq<Edge>, w: Wall, i: int)
    requires
        sound(edges),
        w.proper(),
        notch_at(edges, w, i),
    ensures
        sound(notched(edges, w, i)),
{
    let n = edges.len() as int;
    let e = edges[i];
    let out = notched(edges, w, i);
    lemma_notch_within_edge(edges, w, i);
    lemma_round_the_loop(edges, i);
    assert(e.aligned());
    assert(seated(e, w));
    assert(out.len() == n + 4);
    assert forall|q: int| 0 <= q < out.len() implies #[trigger] out[q].aligned() by {
        if i <= q < i + 5 {
            assert(out[q] == notch(e, w)[q - i]);
            lemma_notch_aligned(e, w, q - i);
        } else {
            assert(out[q] == edges[notch_source(i, q)]);
            assert(edges[notch_source(i, q)].aligned());
        }
    }
    assert forall|q: int| 0 <= q < out.len() - 1 implies #[trigger] joined(out, q) by {
        if q < i - 1 {
            assert(joined(edges, q));
        } else if q == i - 1 {
            assert(joined(edges, q));
        } else if q < i + 4 {
            assert(out[q] == notch(e, w)[q - i]);
            assert(out[q + 1] == notch(e, w)[q + 1 - i]);
        } else {
            assert(joined(edges, q - 4));
        }
    }
    assert(out.last().b == out[0].a);
    assert forall|q: int| 0 <= q < out.len() implies #[trigger] turns_at(out, q) by {
        let r = following(out, q);
        if i <= q < i + 4 {
            assert(out[q] == notch(e, w)[q - i]);
            assert(out[r] == notch(e, w)[r - i]);
            e.n.lemma_turns_compose(1, -1);
            e.n.lemma_turns_compose(-1, 1);
        } else if q == i + 4 {
            assert(turns_at(edges, i));
            assert(out[q].n == e.n);
            assert(out[r].n == edges[following(edges, i)].n);
        } else {
            let j = notch_source(i, q);
            assert(turns_at(edges, j));
            assert(out[q] == edges[j]);
            assert(out[r].n == edges[following(edges, j)].n);
        }
    }
}

/// A sound boundary that does not touch itself still does not with a notch cut into it.
pub proof fn lemma_notched_is_simple(edges: Seq<Edge>, w: Wall, i: int)
    requires
        sound(edges),
        simple(edges),
        w.proper(),
        notch_at(edges, w, i),
    ensures
        simple(notched(edges, w, i)),
{
    let n = edges.len() as int;
    let e = edges[i];
    let out = notched(edges, w, i);
    lemma_notch_within_edge(edges, w, i);
    lemma_round_the_loop(edges, i);
    assert(e.aligned());
    assert(seated(e, w));
    assert(out.len() == n + 4);
    assert forall|q: int, r: int, p: Point|
        0 <= q < r < out.len() && #[trigger] share(out, q, r, p) implies (r == q + 1 && p
            == out[q].b) || (q == 0 && r == out.len() - 1 && p == out[0].a) by {
        let q_cut = i <= q < i + 5;
        let r_cut = i <= r < i + 5;
        if q_cut && r_cut {
            assert(out[q] == notch(e, w)[q - i]);
            assert(out[r] == notch(e, w)[r - i]);
            lemma_notch_pieces_apart(e, w, q - i, r - i, p);
        } else if !q_cut && !r_cut {
            let j = notch_source(i, q);
            let k = notch_source(i, r);
            assert(out[q] == edges[j]);
            assert(out[r] == edges[k]);
            assert(share(edges, j, k, p));
        } else {
            let t = if q_cut { q - i } else { r - i };
            let j = if q_cut { notch_source(i, r) } else { notch_source(i, q) };
            assert(out[if q_cut { q } else { r }] == notch(e, w)[t]);
            assert(out[if q_cut { r } else { q }] == edges[j]);
            lemma_notch_pieces(e, w, t, p);
            assert(apart(edges[j], w));
            assert(!touches(edges[j], w, p));
            if j < i {
                assert(share(edges, j, i, p));
            } else {
                assert(share(edges, i, j, p));
            }
        }
    }
}

/// Cutting a notch into a sound boundary that does not touch itself leaves such a
/// boundary.
pub proof fn lemma_notch_keeps_shape(edges: Seq<Edge>, w: Wall, i: int)
    requires
        sound(edges),
        simple(edges),
        w.proper(),
        notch_at(edges, w, i),
    ensures
        sound(notched(edges, w, i)),
        simple(notched(edges, w, i)),
{
    lemma_notched_is_sound(edges, w, i);
    lemma_notched_is_simple(edges, w, i);
}

} // verus!
