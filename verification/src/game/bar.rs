//! The wall that lies in an inward corner of the boundary and reaches across to a later
//! edge: it draws one edge out to the other and severs what lies behind.

use vstd::prelude::*;
use crate::game::area::{accepts_from, kept_from, peopled, region_within, severed_from, Region};
use crate::game::ball::enclosed;
use crate::game::boundary::{
    following, joined, lemma_round_the_loop, preceding, share, simple, sound, turns_at,
};
use crate::game::edge::{lemma_first_holding_is, Edge};
use crate::game::insertion::lemma_one_splice;
use crate::game::point::Point;
use crate::game::shelf::cornered;
use crate::game::wall::{
    apart, between, corners_met, defined_at, far_corner, landing, lemma_apart_is_clear,
    lemma_corner_covered, splice_at, touch, touches, trailing_loop, trailing_split, Wall,
};

verus! {

/// The wall lies in the inward corner between edge `i` and the next edge and reaches
/// across to the later edge `k`: edge `i` ends on the last corner of the wall that it
/// meets, the next edge turns anticlockwise there and holds the first corner, edge `k`
/// faces the next edge and holds the other two corners, and every other edge of the
/// boundary stays clear of the wall.
pub open spec fn bar_at(edges: Seq<Edge>, w: Wall, i: int, k: int) -> bool {
    &&& 0 <= i
    &&& i + 1 < k < edges.len()
    &&& edges[i].b == corners_met(edges[i], w).3
    &&& edges[i + 1].holds(corners_met(edges[i], w).0)
    &&& edges[i + 1].n == edges[i].n.turned(-1)
    &&& edges[k].holds(corners_met(edges[i], w).1)
    &&& edges[k].holds(corners_met(edges[i], w).2)
    &&& edges[k].n == edges[i].n.turned(1)
    &&& forall|j: int|
        0 <= j < edges.len() && j != i && j != i + 1 && j != k ==> #[trigger] apart(
            edges[j],
            w,
        )
}

/// The two edges that lead along the near side of a bar from the edge `e` to the edge
/// `f`: `e` drawn out along the wall, and what is left of `f` after the wall.
pub open spec fn bar_near(e: Edge, f: Edge, w: Wall) -> Seq<Edge> {
    let (a, b, c, d) = corners_met(e, w);
    seq![Edge { a: e.a, b: c, n: e.n }, Edge { a: c, b: f.b, n: f.n }]
}

/// The three edges that lead along the far side of a bar between the edge `g` and the
/// edge `f`: what is left of `g` after the wall, what is left of `f` before the wall,
/// and the side of the wall that runs back from `f` to `g`.
pub open spec fn bar_far(e: Edge, g: Edge, f: Edge, w: Wall) -> Seq<Edge> {
    let (a, b, c, d) = corners_met(e, w);
    seq![
        Edge { a: a, b: g.b, n: g.n },
        Edge { a: f.a, b: b, n: f.n },
        Edge { a: b, b: a, n: f.n.turned(1) },
    ]
}

/// The boundary that is kept when a bar reaches from the corner after edge `i` to edge
/// `k`.
pub open spec fn barred(edges: Seq<Edge>, w: Wall, i: int, k: int) -> Seq<Edge> {
    edges.subrange(0, i) + bar_near(edges[i], edges[k], w) + edges.subrange(
        k + 1,
        edges.len() as int,
    )
}

/// The boundary behind a bar that reaches from the corner after edge `i` to edge `k`,
/// walked from the wall: what is left of the edge after `i`, the edges up to `k`, what
/// is left of edge `k` before the wall, and the side of the wall that runs back.
pub open spec fn behind(edges: Seq<Edge>, w: Wall, i: int, k: int) -> Seq<Edge> {
    let far = bar_far(edges[i], edges[i + 1], edges[k], w);
    seq![far[0]] + edges.subrange(i + 2, k) + seq![far[1], far[2]]
}

/// The wall reaches from the corner between the edges `e` and `g` to the edge `f` as a
/// bar does: it lies in the corner, `f` runs along a grid line, faces `g`, and holds the
/// other two corners of the wall off its ends.
pub open spec fn barring(e: Edge, g: Edge, f: Edge, w: Wall) -> bool {
    &&& cornered(e, g, w)
    &&& f.aligned()
    &&& f.n == e.n.turned(1)
    &&& f.holds(corners_met(e, w).1)
    &&& f.holds(corners_met(e, w).2)
    &&& corners_met(e, w).1 != f.a
    &&& corners_met(e, w).2 != f.b
}

/// The three edges of a sound boundary that hold a bar are barred by it, and at least
/// one edge lies between the corner and the edge across.
pub proof fn lemma_bar_in_place(edges: Seq<Edge>, w: Wall, i: int, k: int)
    requires
        sound(edges),
        w.proper(),
        bar_at(edges, w, i, k),
    ensures
        barring(edges[i], edges[i + 1], edges[k], w),
        i + 2 < k,
{
    let e = edges[i];
    let g = edges[i + 1];
    let f = edges[k];
    lemma_round_the_loop(edges, i);
    lemma_round_the_loop(edges, i + 1);
    lemma_round_the_loop(edges, k);
    assert(e.aligned());
    assert(g.aligned());
    assert(f.aligned());
    assert(turns_at(edges, i + 1));
    assert(turns_at(edges, k));
    assert(turns_at(edges, preceding(edges, k)));
    e.n.lemma_turns_compose(-1, 1);
    e.n.lemma_turns_compose(-1, -1);
    e.n.lemma_turns_compose(1, 1);
    e.n.lemma_turns_compose(1, -1);
    let after_g = edges[following(edges, i + 1)];
    let before_f = edges[preceding(edges, k)];
    let after_f = edges[following(edges, k)];
    assert(after_g.aligned() && before_f.aligned() && after_f.aligned());
    lemma_corner_covered(w, e.n.index());
    lemma_corner_covered(w, e.n.index() + 1);
    lemma_corner_covered(w, e.n.index() + 2);
    assert(i + 2 < k);
    assert(apart(after_g, w));
    assert(!touches(after_g, w, g.b));
    assert(apart(before_f, w));
    assert(!touches(before_f, w, f.a));
    if following(edges, k) != i {
        assert(apart(after_f, w));
        assert(!touches(after_f, w, f.b));
    }
}

/// At the edge that ends on the wall of a bar, the far corner lands on the edge across.
proof fn lemma_bar_landing(edges: Seq<Edge>, w: Wall, i: int, k: int)
    requires
        sound(edges),
        w.proper(),
        bar_at(edges, w, i, k),
    ensures
        touch(edges[i], w) is Trailing,
        landing(edges, w, i) == Some(k - i - 1),
{
    lemma_bar_in_place(edges, w, i, k);
    let e = edges[i];
    let rest = edges.skip(i + 1);
    let c = corners_met(e, w).2;
    let ci = k - i - 1;
    assert(far_corner(e, w) == c);
    assert(rest[ci] == edges[k]);
    lemma_corner_covered(w, e.n.index() + 2);
    assert forall|j: int| 0 <= j < ci implies !#[trigger] rest[j].holds(c) by {
        assert(rest[j] == edges[i + 1 + j]);
        if j > 0 {
            assert(apart(edges[i + 1 + j], w));
            assert(!touches(edges[i + 1 + j], w, c));
        }
    }
    lemma_first_holding_is(rest, c, ci);
}

/// The loop that a trailing split at edge `i` severs when it lands on edge `k` is the
/// boundary behind the bar.
proof fn lemma_behind_is_severed(edges: Seq<Edge>, w: Wall, i: int, k: int)
    requires
        0 <= i,
        i + 2 < k < edges.len(),
    ensures
        trailing_loop(edges, w, i, k - i - 1) == behind(edges, w, i, k),
        behind(edges, w, i, k).len() == k - i + 1,
{
    let rest = edges.skip(i + 1);
    let ci = k - i - 1;
    assert(rest[ci] == edges[k]);
    assert(rest[0] == edges[i + 1]);
    assert(between(rest, 1, ci) =~= edges.subrange(i + 2, k));
    assert(trailing_loop(edges, w, i, ci) =~= behind(edges, w, i, k));
}

/// At the edge that ends on the wall of a bar, the splice draws the edge out to the edge
/// across, and it severs the boundary behind the bar.
proof fn lemma_bar_splice(edges: Seq<Edge>, w: Wall, i: int, k: int)
    requires
        0 <= i,
        i + 2 < k < edges.len(),
        touch(edges[i], w) is Trailing,
        landing(edges, w, i) == Some(k - i - 1),
        trailing_loop(edges, w, i, k - i - 1) == behind(edges, w, i, k),
    ensures
        defined_at(edges, w, i),
        splice_at(edges, w, i).kept == bar_near(edges[i], edges[k], w),
        splice_at(edges, w, i).severed == Some(behind(edges, w, i, k)),
        splice_at(edges, w, i).next == k + 1,
{
    assert(edges.skip(i + 1)[k - i - 1] == edges[k]);
    assert(splice_at(edges, w, i) == trailing_split(edges, w, i, k - i - 1) && defined_at(
        edges,
        w,
        i,
    )) by {
        reveal(splice_at);
        reveal(defined_at);
    }
    assert(splice_at(edges, w, i).kept =~= bar_near(edges[i], edges[k], w));
}

/// A wall that reaches from an inward corner of a sound boundary to the edge across,
/// clear of all other edges, is accepted; the cut keeps the boundary on the near side of
/// the wall and severs the one behind it.
pub proof fn lemma_bar_is_cut(edges: Seq<Edge>, w: Wall, i: int, k: int)
    requires
        sound(edges),
        w.proper(),
        bar_at(edges, w, i, k),
    ensures
        accepts_from(edges, w, 0),
        kept_from(edges, w, 0) == barred(edges, w, i, k),
        severed_from(edges, w, 0) == seq![behind(edges, w, i, k)],
{
    let n = edges.len() as int;
    assert forall|j: int| 0 <= j < n && j != i && j != i + 1 && j != k implies #[trigger] touch(
        edges[j],
        w,
    ) is Clear by {
        assert(edges[j].aligned());
        assert(apart(edges[j], w));
        lemma_apart_is_clear(edges[j], w);
    }
    lemma_bar_in_place(edges, w, i, k);
    lemma_bar_landing(edges, w, i, k);
    lemma_behind_is_severed(edges, w, i, k);
    lemma_bar_splice(edges, w, i, k);
    lemma_one_splice(edges, w, i);
}

/// Cutting a wall that reaches from an inward corner of a sound boundary to the edge
/// across yields the region on the near side of the wall and, where it holds a ball, the
/// region behind it: two regions where the far side holds a ball, else one.
pub proof fn lemma_bar_yields_regions(area: Region, w: Wall, i: int, k: int)
    requires
        sound(area.edges),
        w.proper(),
        bar_at(area.edges, w, i, k),
    ensures
        area.accepts(w),
        area.divided(w)[0] == region_within(barred(area.edges, w, i, k), area.balls),
        enclosed(behind(area.edges, w, i, k), area.balls).len() > 0 ==> area.divided(w)
            == seq![
            region_within(barred(area.edges, w, i, k), area.balls),
            region_within(behind(area.edges, w, i, k), area.balls),
        ],
        enclosed(behind(area.edges, w, i, k), area.balls).len() == 0 ==> area.divided(w)
            == seq![region_within(barred(area.edges, w, i, k), area.balls)],
{
    lemma_bar_is_cut(area.edges, w, i, k);
    let loops = seq![behind(area.edges, w, i, k)];
    assert(loops.drop_last() =~= Seq::<Seq<Edge>>::empty());
    assert(peopled(loops.drop_last(), area.balls) =~= Seq::<Region>::empty());
    let far = region_within(behind(area.edges, w, i, k), area.balls);
    if far.balls.len() > 0 {
        assert(peopled(loops, area.balls) =~= seq![far]);
        assert(area.divided(w) =~= seq![
            region_within(barred(area.edges, w, i, k), area.balls),
            far,
        ]);
    } else {
        assert(peopled(loops, area.balls) =~= Seq::<Region>::empty());
        assert(area.divided(w) =~= seq![
            region_within(barred(area.edges, w, i, k), area.balls),
        ]);
    }
}

/// The edges along both sides of a bar run along grid lines.
pub proof fn lemma_bar_aligned(e: Edge, g: Edge, f: Edge, w: Wall)
    requires
        barring(e, g, f, w),
    ensures
        bar_near(e, f, w)[0].aligned(),
        bar_near(e, f, w)[1].aligned(),
        bar_far(e, g, f, w)[0].aligned(),
        bar_far(e, g, f, w)[1].aligned(),
        bar_far(e, g, f, w)[2].aligned(),
{
}

/// Where the edges along the near side of a bar lie: the first on the edge that is
/// drawn out, off its end, or on the wall; the second on the edge across, off its start.
pub proof fn lemma_bar_near(e: Edge, g: Edge, f: Edge, w: Wall, t: int, p: Point)
    requires
        barring(e, g, f, w),
        0 <= t < 2,
        bar_near(e, f, w)[t].holds(p),
    ensures
        t == 0 ==> (e.holds(p) && p != e.b && !f.holds(p)) || w.covers(p),
        t == 1 ==> f.holds(p) && p != f.a && (!e.holds(p) || w.covers(p)),
{
}

/// Where the edges along the far side of a bar lie: the first on the edge after the
/// corner, off its start; the second on the edge across, off its end; the third on the
/// wall.
pub proof fn lemma_bar_far(e: Edge, g: Edge, f: Edge, w: Wall, t: int, p: Point)
    requires
        barring(e, g, f, w),
        0 <= t < 3,
        bar_far(e, g, f, w)[t].holds(p),
    ensures
        t == 0 ==> g.holds(p) && p != g.a && !f.holds(p),
        t == 1 ==> f.holds(p) && p != f.b && !g.holds(p),
        t == 2 ==> w.covers(p),
{
}

/// The two edges along the near side of a bar share the corner between them and nothing
/// else.
pub proof fn lemma_bar_near_apart(e: Edge, g: Edge, f: Edge, w: Wall, p: Point)
    requires
        barring(e, g, f, w),
        bar_near(e, f, w)[0].holds(p),
        bar_near(e, f, w)[1].holds(p),
    ensures
        p == bar_near(e, f, w)[0].b,
{
}

/// Of the edges along the far side of a bar, the side of the wall shares one corner with
/// each of the other two, which share nothing.
pub proof fn lemma_bar_far_apart(e: Edge, g: Edge, f: Edge, w: Wall, t: int, u: int, p: Point)
    requires
        barring(e, g, f, w),
        0 <= t < u < 3,
        bar_far(e, g, f, w)[t].holds(p),
        bar_far(e, g, f, w)[u].holds(p),
    ensures
        u == 2,
        t == 0 ==> p == bar_far(e, g, f, w)[0].a,
        t == 1 ==> p == bar_far(e, g, f, w)[1].b,
{
}

/// The edge of the boundary from which edge `q` of the kept boundary comes, where it is
/// neither of the two edges along the bar.
pub open spec fn bar_source(i: int, k: int, q: int) -> int {
    if q < i {
        q
    } else {
        q + k - i - 1
    }
}

/// The boundary that is kept of a sound boundary when a bar is cut in is sound.
pub proof fn lemma_barred_is_sound(edges: Seq<Edge>, w: Wall, i: int, k: int)
    requires
        sound(edges),
        w.proper(),
        bar_at(edges, w, i, k),
    ensures
        sound(barred(edges, w, i, k)),
{
    let n = edges.len() as int;
    let e = edges[i];
    let g = edges[i + 1];
    let f = edges[k];
    let near = bar_near(e, f, w);
    let out = barred(edges, w, i, k);
    lemma_bar_in_place(edges, w, i, k);
    lemma_bar_aligned(e, g, f, w);
    lemma_round_the_loop(edges, i);
    lemma_round_the_loop(edges, k);
    assert(out.len() == n - k + i + 1);
    assert forall|q: int| 0 <= q < out.len() implies #[trigger] out[q].aligned() by {
        if i <= q < i + 2 {
            assert(out[q] == near[q - i]);
        } else {
            assert(out[q] == edges[bar_source(i, k, q)]);
            assert(edges[bar_source(i, k, q)].aligned());
        }
    }
    assert forall|q: int| 0 <= q < out.len() - 1 implies #[trigger] joined(out, q) by {
        if q < i {
            assert(joined(edges, q));
        } else if q == i {
            assert(out[q] == near[0]);
            assert(out[q + 1] == near[1]);
        } else {
            assert(joined(edges, bar_source(i, k, q)));
        }
    }
    assert(out.last().b == out[0].a);
    assert forall|q: int| 0 <= q < out.len() implies #[trigger] turns_at(out, q) by {
        let r = following(out, q);
        if q == i {
            assert(out[q] == near[0]);
            assert(out[r] == near[1]);
        } else if q == i + 1 {
            assert(turns_at(edges, k));
            assert(out[q].n == f.n);
            assert(out[r].n == edges[following(edges, k)].n);
        } else {
            let j = bar_source(i, k, q);
            assert(turns_at(edges, j));
            assert(out[q] == edges[j]);
            assert(out[r].n == edges[following(edges, j)].n);
        }
    }
}

/// The boundary behind a bar in a sound boundary is sound.
pub proof fn lemma_behind_is_sound(edges: Seq<Edge>, w: Wall, i: int, k: int)
    requires
        sound(edges),
        w.proper(),
        bar_at(edges, w, i, k),
    ensures
        sound(behind(edges, w, i, k)),
{
    let e = edges[i];
    let g = edges[i + 1];
    let f = edges[k];
    let far = bar_far(e, g, f, w);
    let out = behind(edges, w, i, k);
    let m = k - i - 1;
    lemma_bar_in_place(edges, w, i, k);
    lemma_bar_aligned(e, g, f, w);
    lemma_round_the_loop(edges, i + 1);
    lemma_round_the_loop(edges, k);
    assert(out.len() == m + 2);
    assert(out[0] == far[0]);
    assert(out[m] == far[1]);
    assert(out[m + 1] == far[2]);
    assert forall|q: int| 0 <= q < out.len() implies #[trigger] out[q].aligned() by {
        if 0 < q < m {
            assert(out[q] == edges[i + 1 + q]);
            assert(edges[i + 1 + q].aligned());
        }
    }
    assert forall|q: int| 0 <= q < out.len() - 1 implies #[trigger] joined(out, q) by {
        if q < m {
            assert(joined(edges, i + 1 + q));
            assert(out[q + 1].a == edges[i + 2 + q].a);
            assert(out[q].b == edges[i + 1 + q].b);
        }
    }
    assert forall|q: int| 0 <= q < out.len() implies #[trigger] turns_at(out, q) by {
        let r = following(out, q);
        if q < m {
            assert(turns_at(edges, i + 1 + q));
            assert(out[q].n == edges[i + 1 + q].n);
            assert(out[r].n == edges[i + 2 + q].n);
        } else {
            e.n.lemma_turns_compose(1, 1);
            e.n.lemma_turns_compose(2, 1);
            e.n.lemma_turns_compose(-1, 0);
        }
    }
}

/// The boundary that is kept of a sound boundary that does not touch itself, when a bar
/// is cut in, does not touch itself.
pub proof fn lemma_barred_is_simple(edges: Seq<Edge>, w: Wall, i: int, k: int)
    requires
        sound(edges),
        simple(edges),
        w.proper(),
        bar_at(edges, w, i, k),
    ensures
        simple(barred(edges, w, i, k)),
{
    let n = edges.len() as int;
    let e = edges[i];
    let g = edges[i + 1];
    let f = edges[k];
    let near = bar_near(e, f, w);
    let out = barred(edges, w, i, k);
    lemma_bar_in_place(edges, w, i, k);
    lemma_round_the_loop(edges, i);
    lemma_round_the_loop(edges, k);
    assert(out.len() == n - k + i + 1);
    assert forall|q: int, r: int, p: Point|
        0 <= q < r < out.len() && #[trigger] share(out, q, r, p) implies (r == q + 1 && p
            == out[q].b) || (q == 0 && r == out.len() - 1 && p == out[0].a) by {
        let q_cut = i <= q < i + 2;
        let r_cut = i <= r < i + 2;
        if q_cut && r_cut {
            assert(out[q] == near[0]);
            assert(out[r] == near[1]);
            lemma_bar_near_apart(e, g, f, w, p);
        } else if !q_cut && !r_cut {
            let j = bar_source(i, k, q);
            let l = bar_source(i, k, r);
            assert(out[q] == edges[j]);
            assert(out[r] == edges[l]);
            assert(share(edges, j, l, p));
        } else {
            let t = if q_cut { q - i } else { r - i };
            let j = if q_cut { bar_source(i, k, r) } else { bar_source(i, k, q) };
            assert(out[if q_cut { q } else { r }] == near[t]);
            assert(out[if q_cut { r } else { q }] == edges[j]);
            lemma_bar_near(e, g, f, w, t, p);
            assert(apart(edges[j], w));
            assert(!touches(edges[j], w, p));
            if t == 0 {
                if j < i {
                    assert(share(edges, j, i, p));
                } else {
                    assert(share(edges, i, j, p));
                }
            } else {
                if j < k {
                    assert(share(edges, j, k, p));
                } else {
                    assert(share(edges, k, j, p));
                }
            }
        }
    }
}

/// The boundary behind a bar, in a sound boundary that does not touch itself, does not
/// touch itself.
pub proof fn lemma_behind_is_simple(edges: Seq<Edge>, w: Wall, i: int, k: int)
    requires
        sound(edges),
        simple(edges),
        w.proper(),
        bar_at(edges, w, i, k),
    ensures
        simple(behind(edges, w, i, k)),
{
    let e = edges[i];
    let g = edges[i + 1];
    let f = edges[k];
    let far = bar_far(e, g, f, w);
    let out = behind(edges, w, i, k);
    let m = k - i - 1;
    lemma_bar_in_place(edges, w, i, k);
    assert(out.len() == m + 2);
    assert(out[0] == far[0]);
    assert(out[m] == far[1]);
    assert(out[m + 1] == far[2]);
    assert forall|q: int, r: int, p: Point|
        0 <= q < r < out.len() && #[trigger] share(out, q, r, p) implies (r == q + 1 && p
            == out[q].b) || (q == 0 && r == out.len() - 1 && p == out[0].a) by {
        let q_mid = 0 < q < m;
        let r_mid = 0 < r < m;
        if q_mid && r_mid {
            assert(out[q] == edges[i + 1 + q]);
            assert(out[r] == edges[i + 1 + r]);
            assert(share(edges, i + 1 + q, i + 1 + r, p));
        } else if q_mid {
            let t = r - m + 1;
            assert(out[q] == edges[i + 1 + q]);
            lemma_bar_far(e, g, f, w, t, p);
            assert(apart(edges[i + 1 + q], w));
            assert(!touches(edges[i + 1 + q], w, p));
            if t == 1 {
                assert(share(edges, i + 1 + q, k, p));
            }
        } else if r_mid {
            assert(q == 0);
            assert(out[r] == edges[i + 1 + r]);
            lemma_bar_far(e, g, f, w, 0, p);
            assert(share(edges, i + 1, i + 1 + r, p));
        } else {
            let t = if q == 0 { 0 } else { q - m + 1 };
            let u = r - m + 1;
            lemma_bar_far_apart(e, g, f, w, t, u, p);
        }
    }
}

/// Cutting a bar into a sound boundary that does not touch itself leaves two such
/// boundaries: the one that is kept and the one that is severed.
pub proof fn lemma_bar_keeps_shape(edges: Seq<Edge>, w: Wall, i: int, k: int)
    requires
        sound(edges),
        simple(edges),
        w.proper(),
        bar_at(edges, w, i, k),
    ensures
        sound(barred(edges, w, i, k)),
        simple(barred(edges, w, i, k)),
        sound(behind(edges, w, i, k)),
        simple(behind(edges, w, i, k)),
{
    lemma_barred_is_sound(edges, w, i, k);
    lemma_barred_is_simple(edges, w, i, k);
    lemma_behind_is_sound(edges, w, i, k);
    lemma_behind_is_simple(edges, w, i, k);
}

} // verus!
