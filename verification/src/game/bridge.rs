//! The wall that spans from one edge to the edge that faces it: it splits the boundary.

use vstd::prelude::*;
use crate::game::area::{accepts_from, kept_from, peopled, region_within, severed_from, Region};
use crate::game::ball::enclosed;
use crate::game::boundary::{
    following, joined, lemma_rotation_keeps_simple, lemma_rotation_keeps_sound,
    lemma_round_the_loop, preceding, share, simple, sound, turns_at,
};
use crate::game::edge::{lemma_first_holding_is, Edge};
use crate::game::insertion::lemma_one_splice;
use crate::game::point::Point;
use crate::game::wall::{
    apart, between, corners_met, defined_at, landing, leading_loop, leading_split,
    lemma_apart_is_clear, lemma_corner_covered, rotated, splice_at, touch, touches, Wall,
};

verus! {

/// The wall spans from edge `i`, which holds one whole side of it, to the later edge `k`,
/// which faces edge `i` and holds the opposite side, and every other edge of the boundary
/// stays clear of it.
pub open spec fn bridge_at(edges: Seq<Edge>, w: Wall, i: int, k: int) -> bool {
    &&& 0 <= i < k < edges.len()
    &&& edges[i].holds(corners_met(edges[i], w).0)
    &&& edges[i].holds(corners_met(edges[i], w).1)
    &&& edges[k].holds(corners_met(edges[i], w).2)
    &&& edges[k].holds(corners_met(edges[i], w).3)
    &&& edges[k].n == edges[i].n.turned(2)
    &&& forall|j: int|
        0 <= j < edges.len() && j != i && j != k ==> #[trigger] apart(edges[j], w)
}

/// The three edges that lead along the near side of a wall from the edge `e` to the
/// edge `f`: what is left of `e` before the wall, the side of the wall that runs from `e`
/// to `f`, and what is left of `f` after the wall.
pub open spec fn near_edges(e: Edge, f: Edge, w: Wall) -> Seq<Edge> {
    let (a, b, c, d) = corners_met(e, w);
    seq![
        Edge { a: e.a, b: a, n: e.n },
        Edge { a: a, b: d, n: e.n.turned(1) },
        Edge { a: d, b: f.b, n: f.n },
    ]
}

/// The three edges that lead along the far side of a wall between the edge `e` and the
/// edge `f`: what is left of `e` after the wall, what is left of `f` before the wall,
/// and the side of the wall that runs back from `f` to `e`.
pub open spec fn far_edges(e: Edge, f: Edge, w: Wall) -> Seq<Edge> {
    let (a, b, c, d) = corners_met(e, w);
    seq![
        Edge { a: b, b: e.b, n: e.n },
        Edge { a: f.a, b: c, n: f.n },
        Edge { a: c, b: b, n: f.n.turned(1) },
    ]
}

/// The three edges that take the place of the edges `i` to `k` in the boundary that is
/// kept.
pub open spec fn span(edges: Seq<Edge>, w: Wall, i: int, k: int) -> Seq<Edge> {
    near_edges(edges[i], edges[k], w)
}

/// The boundary that is kept when the wall spans from edge `i` to edge `k`.
pub open spec fn bridged(edges: Seq<Edge>, w: Wall, i: int, k: int) -> Seq<Edge> {
    edges.subrange(0, i) + span(edges, w, i, k) + edges.subrange(k + 1, edges.len() as int)
}

/// The boundary on the far side of a wall that spans from edge `i` to edge `k`, walked
/// from the wall: what is left of edge `i` after the wall, the edges between `i` and
/// `k`, what is left of edge `k` before the wall, and the side of the wall that runs
/// back from edge `k` to edge `i`.
pub open spec fn far_side(edges: Seq<Edge>, w: Wall, i: int, k: int) -> Seq<Edge> {
    let far = far_edges(edges[i], edges[k], w);
    seq![far[0]] + edges.subrange(i + 1, k) + seq![far[1], far[2]]
}

/// The boundary that is severed when the wall spans from edge `i` to edge `k`: the far
/// side, with as many of its last edges moved to the front as the facing of edge `i`
/// counts quarter turns from `Down`.
pub open spec fn cut_off(edges: Seq<Edge>, w: Wall, i: int, k: int) -> Seq<Edge> {
    rotated(far_side(edges, w, i, k), edges[i].n.index())
}

/// What follows from a bridge on a sound boundary: the two edges that hold the wall are
/// not neighbours, and the wall lies strictly within both.
pub proof fn lemma_bridge_within_edges(edges: Seq<Edge>, w: Wall, i: int, k: int)
    requires
        sound(edges),
        w.proper(),
        bridge_at(edges, w, i, k),
    ensures
        i + 1 < k,
        !(i == 0 && k == edges.len() - 1),
        corners_met(edges[i], w).0 != edges[i].a,
        corners_met(edges[i], w).1 != edges[i].b,
        corners_met(edges[i], w).2 != edges[k].a,
        corners_met(edges[i], w).3 != edges[k].b,
{
    let e = edges[i];
    let f = edges[k];
    lemma_round_the_loop(edges, i);
    lemma_round_the_loop(edges, k);
    assert(turns_at(edges, i));
    assert(turns_at(edges, k));
    e.n.lemma_turns_compose(1, 1);
    assert(e.aligned());
    assert(f.aligned());
    let before_i = edges[preceding(edges, i)];
    let after_i = edges[following(edges, i)];
    let before_k = edges[preceding(edges, k)];
    let after_k = edges[following(edges, k)];
    assert(before_i.aligned() && after_i.aligned() && before_k.aligned() && after_k.aligned());
    assert(turns_at(edges, preceding(edges, i)));
    assert(turns_at(edges, preceding(edges, k)));
    assert(apart(before_i, w));
    assert(!touches(before_i, w, e.a));
    assert(apart(after_i, w));
    assert(!touches(after_i, w, e.b));
    assert(apart(before_k, w));
    assert(!touches(before_k, w, f.a));
    assert(apart(after_k, w));
    assert(!touches(after_k, w, f.b));
    lemma_corner_covered(w, e.n.index());
    lemma_corner_covered(w, e.n.index() + 1);
    lemma_corner_covered(w, e.n.index() + 2);
    lemma_corner_covered(w, e.n.index() + 3);
}

/// At the first edge that holds the wall of a bridge, the wall's first corner lies on
/// the edge and its far corner lands on the second edge that holds the wall.
proof fn lemma_bridge_landing(edges: Seq<Edge>, w: Wall, i: int, k: int)
    requires
        sound(edges),
        w.proper(),
        bridge_at(edges, w, i, k),
    ensures
        touch(edges[i], w) is Leading,
        landing(edges, w, i) == Some(k - i - 1),
{
    lemma_bridge_within_edges(edges, w, i, k);
    let e = edges[i];
    let rest = edges.skip(i + 1);
    let d = corners_met(e, w).3;
    let ci = k - i - 1;
    assert(e.aligned());
    assert(touch(e, w) is Leading);
    assert(rest[ci] == edges[k]);
    lemma_corner_covered(w, e.n.index() + 3);
    assert forall|j: int| 0 <= j < ci implies !#[trigger] rest[j].holds(d) by {
        assert(rest[j] == edges[i + 1 + j]);
        assert(apart(edges[i + 1 + j], w));
        assert(!touches(edges[i + 1 + j], w, d));
    }
    lemma_first_holding_is(rest, d, ci);
}

/// Where the wall's second corner lies off the end of edge `i`, the loop that a leading
/// split at edge `i` severs when it lands on edge `k` is the far side of the wall.
proof fn lemma_far_side_is_severed(edges: Seq<Edge>, w: Wall, i: int, k: int)
    requires
        0 <= i,
        i + 1 < k < edges.len(),
        corners_met(edges[i], w).1 != edges[i].b,
    ensures
        leading_loop(edges, w, i, k - i - 1) == far_side(edges, w, i, k),
        far_side(edges, w, i, k).len() == k - i + 2,
{
    let rest = edges.skip(i + 1);
    let ci = k - i - 1;
    assert(rest[ci] == edges[k]);
    assert(between(rest, 0, ci) =~= edges.subrange(i + 1, k));
    assert(leading_loop(edges, w, i, ci) =~= far_side(edges, w, i, k));
}

/// At the first edge that holds the wall of a bridge, the splice is the span to the
/// second, and it severs the far side.
proof fn lemma_bridge_splice(edges: Seq<Edge>, w: Wall, i: int, k: int)
    requires
        0 <= i < k < edges.len(),
        touch(edges[i], w) is Leading,
        landing(edges, w, i) == Some(k - i - 1),
        leading_loop(edges, w, i, k - i - 1) == far_side(edges, w, i, k),
        far_side(edges, w, i, k).len() == k - i + 2,
    ensures
        defined_at(edges, w, i),
        splice_at(edges, w, i).kept == span(edges, w, i, k),
        splice_at(edges, w, i).severed == Some(cut_off(edges, w, i, k)),
        splice_at(edges, w, i).next == k + 1,
{
    assert(edges.skip(i + 1)[k - i - 1] == edges[k]);
    assert(splice_at(edges, w, i) == leading_split(edges, w, i, k - i - 1) && defined_at(
        edges,
        w,
        i,
    )) by {
        reveal(splice_at);
        reveal(defined_at);
    }
    assert(splice_at(edges, w, i).kept =~= span(edges, w, i, k));
}

/// A wall that spans from one edge of a sound boundary to the edge that faces it, clear
/// of all others, is accepted; the cut keeps the boundary on the near side of the wall
/// and severs the one on the far side.
pub proof fn lemma_bridge_is_cut(edges: Seq<Edge>, w: Wall, i: int, k: int)
    requires
        sound(edges),
        w.proper(),
        bridge_at(edges, w, i, k),
    ensures
        accepts_from(edges, w, 0),
        kept_from(edges, w, 0) == bridged(edges, w, i, k),
        severed_from(edges, w, 0) == seq![cut_off(edges, w, i, k)],
{
    let n = edges.len() as int;
    assert forall|j: int| 0 <= j < n && j != i && j != k implies #[trigger] touch(
        edges[j],
        w,
    ) is Clear by {
        assert(edges[j].aligned());
        assert(apart(edges[j], w));
        lemma_apart_is_clear(edges[j], w);
    }
    lemma_bridge_within_edges(edges, w, i, k);
    lemma_bridge_landing(edges, w, i, k);
    lemma_far_side_is_severed(edges, w, i, k);
    lemma_bridge_splice(edges, w, i, k);
    lemma_one_splice(edges, w, i);
}

/// Cutting a wall that spans from one edge of a sound boundary to the edge that faces
/// it yields the region on the near side of the wall and, where it holds a ball, the
/// region on the far side: two regions where the far side holds a ball, else one.
pub proof fn lemma_bridge_yields_regions(area: Region, w: Wall, i: int, k: int)
    requires
        sound(area.edges),
        w.proper(),
        bridge_at(area.edges, w, i, k),
    ensures
        area.accepts(w),
        area.divided(w)[0] == region_within(bridged(area.edges, w, i, k), area.balls),
        enclosed(cut_off(area.edges, w, i, k), area.balls).len() > 0 ==> area.divided(w)
            == seq![
            region_within(bridged(area.edges, w, i, k), area.balls),
            region_within(cut_off(area.edges, w, i, k), area.balls),
        ],
        enclosed(cut_off(area.edges, w, i, k), area.balls).len() == 0 ==> area.divided(w)
            == seq![region_within(bridged(area.edges, w, i, k), area.balls)],
{
    lemma_bridge_is_cut(area.edges, w, i, k);
    let loops = seq![cut_off(area.edges, w, i, k)];
    assert(loops.drop_last() =~= Seq::<Seq<Edge>>::empty());
    assert(peopled(loops.drop_last(), area.balls) =~= Seq::<Region>::empty());
    let far = region_within(cut_off(area.edges, w, i, k), area.balls);
    if far.balls.len() > 0 {
        assert(peopled(loops, area.balls) =~= seq![far]);
        assert(area.divided(w) =~= seq![
            region_within(bridged(area.edges, w, i, k), area.balls),
            far,
        ]);
    } else {
        assert(peopled(loops, area.balls) =~= Seq::<Region>::empty());
        assert(area.divided(w) =~= seq![
            region_within(bridged(area.edges, w, i, k), area.balls),
        ]);
    }
}

/// The wall spans from the edge `e` to the edge `f` as the wall of a bridge does: both
/// run along grid lines, `f` faces `e`, `e` holds the first two corners that it meets and
/// `f` the other two, all four off the ends of the edges.
pub open spec fn spanning(e: Edge, f: Edge, w: Wall) -> bool {
    &&& e.aligned()
    &&& f.aligned()
    &&& w.proper()
    &&& f.n == e.n.turned(2)
    &&& e.holds(corners_met(e, w).0)
    &&& e.holds(corners_met(e, w).1)
    &&& f.holds(corners_met(e, w).2)
    &&& f.holds(corners_met(e, w).3)
    &&& corners_met(e, w).0 != e.a
    &&& corners_met(e, w).1 != e.b
    &&& corners_met(e, w).2 != f.a
    &&& corners_met(e, w).3 != f.b
}

/// The edges along both sides of a spanning wall run along grid lines.
pub proof fn lemma_sides_aligned(e: Edge, f: Edge, w: Wall, t: int)
    requires
        spanning(e, f, w),
        0 <= t < 3,
    ensures
        near_edges(e, f, w)[t].aligned(),
        far_edges(e, f, w)[t].aligned(),
{
}

/// Where the edges along the near side of a spanning wall lie: the first on the first
/// edge, off its end; the second on the wall; the third on the second edge, off its start.
pub proof fn lemma_near_edges(e: Edge, f: Edge, w: Wall, t: int, p: Point)
    requires
        spanning(e, f, w),
        0 <= t < 3,
        near_edges(e, f, w)[t].holds(p),
    ensures
        t == 0 ==> e.holds(p) && p != e.b && !f.holds(p),
        t == 1 ==> w.covers(p),
        t == 2 ==> f.holds(p) && p != f.a && !e.holds(p),
{
}

/// Where the edges along the far side of a spanning wall lie: the first on the first
/// edge, off its start; the second on the second edge, off its end; the third on the wall.
pub proof fn lemma_far_edges(e: Edge, f: Edge, w: Wall, t: int, p: Point)
    requires
        spanning(e, f, w),
        0 <= t < 3,
        far_edges(e, f, w)[t].holds(p),
    ensures
        t == 0 ==> e.holds(p) && p != e.a && !f.holds(p),
        t == 1 ==> f.holds(p) && p != f.b && !e.holds(p),
        t == 2 ==> w.covers(p),
{
}

/// Two of the edges along the near side of a spanning wall share a point only where one
/// follows the other, and then only the corner between them.
pub proof fn lemma_near_edges_apart(e: Edge, f: Edge, w: Wall, t: int, u: int, p: Point)
    requires
        spanning(e, f, w),
        0 <= t < u < 3,
        near_edges(e, f, w)[t].holds(p),
        near_edges(e, f, w)[u].holds(p),
    ensures
        u == t + 1,
        p == near_edges(e, f, w)[t].b,
{
}

/// Of the edges along the far side of a spanning wall, the side of the wall shares one
/// corner with each of the other two, which share nothing.
pub proof fn lemma_far_edges_apart(e: Edge, f: Edge, w: Wall, t: int, u: int, p: Point)
    requires
        spanning(e, f, w),
        0 <= t < u < 3,
        far_edges(e, f, w)[t].holds(p),
        far_edges(e, f, w)[u].holds(p),
    ensures
        u == 2,
        t == 0 ==> p == far_edges(e, f, w)[0].a,
        t == 1 ==> p == far_edges(e, f, w)[1].b,
{
}

/// The two edges that hold the wall of a bridge on a sound boundary are spanned by it.
pub proof fn lemma_bridge_spans(edges: Seq<Edge>, w: Wall, i: int, k: int)
    requires
        sound(edges),
        w.proper(),
        bridge_at(edges, w, i, k),
    ensures
        spanning(edges[i], edges[k], w),
{
    lemma_bridge_within_edges(edges, w, i, k);
    assert(edges[i].aligned());
    assert(edges[k].aligned());
}

/// The edge of the boundary from which edge `q` of the kept boundary comes, where it is
/// none of the three edges of the span.
pub open spec fn bridge_source(i: int, k: int, q: int) -> int {
    if q < i {
        q
    } else {
        q + k - i - 2
    }
}

/// The boundary that is kept of a sound boundary when a wall spans from one edge to the
/// edge that faces it is sound.
pub proof fn lemma_bridged_is_sound(edges: Seq<Edge>, w: Wall, i: int, k: int)
    requires
        sound(edges),
        w.proper(),
        bridge_at(edges, w, i, k),
    ensures
        sound(bridged(edges, w, i, k)),
{
    let n = edges.len() as int;
    let e = edges[i];
    let f = edges[k];
    let near = near_edges(e, f, w);
    let out = bridged(edges, w, i, k);
    lemma_bridge_within_edges(edges, w, i, k);
    lemma_bridge_spans(edges, w, i, k);
    lemma_round_the_loop(edges, i);
    lemma_round_the_loop(edges, k);
    assert(out.len() == n - k + i + 2);
    assert forall|q: int| 0 <= q < out.len() implies #[trigger] out[q].aligned() by {
        if i <= q < i + 3 {
            assert(out[q] == near[q - i]);
            lemma_sides_aligned(e, f, w, q - i);
        } else {
            assert(out[q] == edges[bridge_source(i, k, q)]);
            assert(edges[bridge_source(i, k, q)].aligned());
        }
    }
    assert forall|q: int| 0 <= q < out.len() - 1 implies #[trigger] joined(out, q) by {
        if q < i {
            assert(joined(edges, q));
        } else if q < i + 2 {
            assert(out[q] == near[q - i]);
            assert(out[q + 1] == near[q + 1 - i]);
        } else {
            assert(joined(edges, bridge_source(i, k, q)));
        }
    }
    assert(out.last().b == out[0].a);
    assert forall|q: int| 0 <= q < out.len() implies #[trigger] turns_at(out, q) by {
        let r = following(out, q);
        if i <= q < i + 2 {
            assert(out[q] == near[q - i]);
            assert(out[r] == near[r - i]);
            e.n.lemma_turns_compose(1, 1);
        } else if q == i + 2 {
            assert(turns_at(edges, k));
            assert(out[q].n == f.n);
            assert(out[r].n == edges[following(edges, k)].n);
        } else {
            let j = bridge_source(i, k, q);
            assert(turns_at(edges, j));
            assert(out[q] == edges[j]);
            assert(out[r].n == edges[following(edges, j)].n);
        }
    }
}

/// The boundary on the far side of a wall that spans from one edge of a sound boundary
/// to the edge that faces it is sound.
pub proof fn lemma_far_side_is_sound(edges: Seq<Edge>, w: Wall, i: int, k: int)
    requires
        sound(edges),
        w.proper(),
        bridge_at(edges, w, i, k),
    ensures
        sound(far_side(edges, w, i, k)),
{
    let e = edges[i];
    let f = edges[k];
    let far = far_edges(e, f, w);
    let out = far_side(edges, w, i, k);
    let m = k - i;
    lemma_bridge_within_edges(edges, w, i, k);
    lemma_bridge_spans(edges, w, i, k);
    lemma_round_the_loop(edges, i);
    lemma_round_the_loop(edges, k);
    assert(out.len() == m + 2);
    assert(out[0] == far[0]);
    assert(out[m] == far[1]);
    assert(out[m + 1] == far[2]);
    lemma_sides_aligned(e, f, w, 0);
    lemma_sides_aligned(e, f, w, 1);
    lemma_sides_aligned(e, f, w, 2);
    assert forall|q: int| 0 <= q < out.len() implies #[trigger] out[q].aligned() by {
        if 0 < q < m {
            assert(out[q] == edges[i + q]);
            assert(edges[i + q].aligned());
        }
    }
    assert forall|q: int| 0 <= q < out.len() - 1 implies #[trigger] joined(out, q) by {
        if q < m {
            assert(joined(edges, i + q));
            assert(out[q + 1].a == edges[i + q + 1].a);
            assert(out[q].b == edges[i + q].b);
        }
    }
    assert forall|q: int| 0 <= q < out.len() implies #[trigger] turns_at(out, q) by {
        let r = following(out, q);
        if q < m {
            assert(turns_at(edges, i + q));
            assert(out[q].n == edges[i + q].n);
            assert(out[r].n == edges[i + q + 1].n);
        } else {
            e.n.lemma_turns_compose(2, 1);
            e.n.lemma_turns_compose(3, 1);
        }
    }
}

/// The boundary that is kept of a sound boundary that does not touch itself, when a wall
/// spans from one edge to the edge that faces it, does not touch itself.
pub proof fn lemma_bridged_is_simple(edges: Seq<Edge>, w: Wall, i: int, k: int)
    requires
        sound(edges),
        simple(edges),
        w.proper(),
        bridge_at(edges, w, i, k),
    ensures
        simple(bridged(edges, w, i, k)),
{
    let n = edges.len() as int;
    let e = edges[i];
    let f = edges[k];
    let near = near_edges(e, f, w);
    let out = bridged(edges, w, i, k);
    lemma_bridge_within_edges(edges, w, i, k);
    lemma_bridge_spans(edges, w, i, k);
    lemma_round_the_loop(edges, i);
    lemma_round_the_loop(edges, k);
    assert(out.len() == n - k + i + 2);
    assert forall|q: int, r: int, p: Point|
        0 <= q < r < out.len() && #[trigger] share(out, q, r, p) implies (r == q + 1 && p
            == out[q].b) || (q == 0 && r == out.len() - 1 && p == out[0].a) by {
        let q_cut = i <= q < i + 3;
        let r_cut = i <= r < i + 3;
        if q_cut && r_cut {
            assert(out[q] == near[q - i]);
            assert(out[r] == near[r - i]);
            lemma_near_edges_apart(e, f, w, q - i, r - i, p);
        } else if !q_cut && !r_cut {
            let j = bridge_source(i, k, q);
            let l = bridge_source(i, k, r);
            assert(out[q] == edges[j]);
            assert(out[r] == edges[l]);
            assert(share(edges, j, l, p));
        } else {
            let t = if q_cut { q - i } else { r - i };
            let j = if q_cut { bridge_source(i, k, r) } else { bridge_source(i, k, q) };
            assert(out[if q_cut { q } else { r }] == near[t]);
            assert(out[if q_cut { r } else { q }] == edges[j]);
            lemma_near_edges(e, f, w, t, p);
            assert(apart(edges[j], w));
            assert(!touches(edges[j], w, p));
            if t == 0 {
                if j < i {
                    assert(share(edges, j, i, p));
                } else {
                    assert(share(edges, i, j, p));
                }
            } else if t == 2 {
                if j < k {
                    assert(share(edges, j, k, p));
                } else {
                    assert(share(edges, k, j, p));
                }
            }
        }
    }
}

/// The boundary on the far side of a wall that spans from one edge to the edge that
/// faces it, in a sound boundary that does not touch itself, does not touch itself.
pub proof fn lemma_far_side_is_simple(edges: Seq<Edge>, w: Wall, i: int, k: int)
    requires
        sound(edges),
        simple(edges),
        w.proper(),
        bridge_at(edges, w, i, k),
    ensures
        simple(far_side(edges, w, i, k)),
{
    let e = edges[i];
    let f = edges[k];
    let far = far_edges(e, f, w);
    let out = far_side(edges, w, i, k);
    let m = k - i;
    lemma_bridge_within_edges(edges, w, i, k);
    lemma_bridge_spans(edges, w, i, k);
    assert(out.len() == m + 2);
    assert(out[0] == far[0]);
    assert(out[m] == far[1]);
    assert(out[m + 1] == far[2]);
    assert forall|q: int, r: int, p: Point|
        0 <= q < r < out.len() && #[trigger] share(out, q, r, p) implies (r == q + 1 && p
            == out[q].b) || (q == 0 && r == out.len() - 1 && p == out[0].a) by {
        let q_mid = 0 < q < m;
        let r_mid = 0 < r < m;
        if q_mid && r_mid {
            assert(out[q] == edges[i + q]);
            assert(out[r] == edges[i + r]);
            assert(share(edges, i + q, i + r, p));
        } else if q_mid {
            let t = r - m + 1;
            assert(out[q] == edges[i + q]);
            lemma_far_edges(e, f, w, t, p);
            assert(apart(edges[i + q], w));
            assert(!touches(edges[i + q], w, p));
            if t == 1 {
                assert(share(edges, i + q, k, p));
            }
        } else if r_mid {
            assert(q == 0);
            assert(out[r] == edges[i + r]);
            lemma_far_edges(e, f, w, 0, p);
            assert(share(edges, i, i + r, p));
        } else {
            let t = if q == 0 { 0 } else { q - m + 1 };
            let u = r - m + 1;
            lemma_far_edges_apart(e, f, w, t, u, p);
        }
    }
}

/// Cutting a wall that spans from one edge to the edge that faces it into a sound
/// boundary that does not touch itself leaves two such boundaries: the one that is kept
/// and the one that is severed.
pub proof fn lemma_bridge_keeps_shape(edges: Seq<Edge>, w: Wall, i: int, k: int)
    requires
        sound(edges),
        simple(edges),
        w.proper(),
        bridge_at(edges, w, i, k),
    ensures
        sound(bridged(edges, w, i, k)),
        simple(bridged(edges, w, i, k)),
        sound(cut_off(edges, w, i, k)),
        simple(cut_off(edges, w, i, k)),
{
    lemma_bridge_within_edges(edges, w, i, k);
    lemma_bridged_is_sound(edges, w, i, k);
    lemma_bridged_is_simple(edges, w, i, k);
    lemma_far_side_is_sound(edges, w, i, k);
    lemma_far_side_is_simple(edges, w, i, k);
    let far = far_side(edges, w, i, k);
    assert(far.len() == k - i + 2);
    lemma_rotation_keeps_sound(far, edges[i].n.index());
    lemma_rotation_keeps_simple(far, edges[i].n.index());
}

} // verus!
