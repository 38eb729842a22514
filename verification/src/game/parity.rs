//! How the cut of a wall changes what the rays of the inside test meet.

use vstd::prelude::*;
use crate::game::ball::{encloses, strikes, Ball};
use crate::game::bar::{
    bar_at, bar_far, bar_near, barred, barring, behind, lemma_bar_in_place,
    lemma_barred_is_sound, lemma_behind_is_sound,
};
use crate::game::boundary::{closed, joined, lemma_rotation_keeps_sound, rectilinear, sound};
use crate::game::bridge::{
    bridge_at, bridged, cut_off, far_edges, far_side, lemma_bridge_spans,
    lemma_bridge_within_edges, lemma_bridged_is_sound, lemma_far_side_is_sound, near_edges,
    spanning,
};
use crate::game::edge::Edge;
use crate::game::notch::{
    lemma_notch_within_edge, lemma_notched_is_sound, notch, notch_at, notched, seated,
};
use crate::game::point::Point;
use crate::game::rays::{
    axial, in_view, lemma_rays_agree, lemma_struck_is_crossed, one_if, sees, sees_edge,
};
use crate::game::shelf::{
    cornered, lemma_shelf_in_corner, lemma_shelved_is_sound, shelf, shelf_at, shelved,
};
use crate::game::wall::{corners_met, rim, rotated, side, Wall};

verus! {

/// What one edge adds to `strikes`.
#[verifier::opaque]
pub open spec fn strike(e: Edge, ball: Ball, level: bool) -> nat {
    one_if(e.n.level() == level && e.struck_by(ball))
}

/// The strikes of two sequences of edges add up.
pub proof fn lemma_strikes_add(s: Seq<Edge>, t: Seq<Edge>, ball: Ball, level: bool)
    ensures
        strikes(s + t, ball, level) == strikes(s, ball, level) + strikes(t, ball, level),
    decreases t.len(),
{
    if t.len() == 0 {
        assert(s + t =~= s);
    } else {
        lemma_strikes_add(s, t.drop_last(), ball, level);
        assert((s + t).drop_last() =~= s + t.drop_last());
    }
}

/// Moving edges from the back of a sequence to its front changes no strike.
pub proof fn lemma_strikes_rotated(s: Seq<Edge>, k: int, ball: Ball, level: bool)
    requires
        0 <= k <= s.len(),
    ensures
        strikes(rotated(s, k), ball, level) == strikes(s, ball, level),
{
    let n = s.len() as int;
    let back = s.subrange(n - k, n);
    let front = s.subrange(0, n - k);
    lemma_strikes_add(back, front, ball, level);
    lemma_strikes_add(front, back, ball, level);
    assert(front + back =~= s);
}

/// The strikes of up to five edges, edge by edge.
pub proof fn lemma_strikes_few(s: Seq<Edge>, ball: Ball, level: bool)
    requires
        s.len() <= 5,
    ensures
        strikes(s, ball, level) == (if s.len() > 0 {
            strike(s[0], ball, level)
        } else {
            0
        }) + (if s.len() > 1 {
            strike(s[1], ball, level)
        } else {
            0
        }) + (if s.len() > 2 {
            strike(s[2], ball, level)
        } else {
            0
        }) + (if s.len() > 3 {
            strike(s[3], ball, level)
        } else {
            0
        }) + (if s.len() > 4 {
            strike(s[4], ball, level)
        } else {
            0
        }),
    decreases s.len(),
{
    reveal(strike);
    if s.len() > 0 {
        lemma_strikes_few(s.drop_last(), ball, level);
    }
}

/// The ball has the four corners of the wall in plain view.
pub open spec fn sees_wall(w: Wall, ball: Ball) -> bool {
    &&& in_view(w.top_left, ball)
    &&& in_view(w.top_right, ball)
    &&& in_view(w.bottom_right, ball)
    &&& in_view(w.bottom_left, ball)
}

/// The rim of a proper wall is a loop along grid lines, and a ball that has the wall's
/// corners in plain view has the rim's.
pub proof fn lemma_rim_is_loop(w: Wall, ball: Ball)
    requires
        w.proper(),
        sees_wall(w, ball),
    ensures
        closed(rim(w)),
        axial(rim(w)),
        sees(rim(w), ball),
{
    let r = rim(w);
    assert forall|i: int| 0 <= i < r.len() - 1 implies #[trigger] joined(r, i) by {}
    assert forall|i: int| 0 <= i < r.len() implies #[trigger] r[i].axial() by {}
    assert forall|i: int| 0 <= i < r.len() implies #[trigger] sees_edge(r, i, ball) by {}
}

/// Two edges along the same grid line between the same two points are struck alike,
/// whichever way each is walked.
pub proof fn lemma_strike_either_way(e: Edge, f: Edge, ball: Ball, level: bool)
    requires
        e.axial(),
        f.axial(),
        e.n.level() == f.n.level(),
        (e.a == f.a && e.b == f.b) || (e.a == f.b && e.b == f.a),
    ensures
        strike(e, ball, level) == strike(f, ball, level),
{
    reveal(strike);
    lemma_struck_is_crossed(e, ball);
    lemma_struck_is_crossed(f, ball);
}

/// An edge along a grid line is struck as often as the two parts together into which a
/// point strictly within it divides it, where the ball has that point in plain view.
pub proof fn lemma_strike_split(e: Edge, m: Point, ball: Ball, level: bool)
    requires
        e.axial(),
        in_view(m, ball),
        if e.n.level() {
            m.y == e.a.y && (e.a.x < m.x < e.b.x || e.b.x < m.x < e.a.x)
        } else {
            m.x == e.a.x && (e.a.y < m.y < e.b.y || e.b.y < m.y < e.a.y)
        },
    ensures
        strike(e, ball, level) == strike(Edge { a: e.a, b: m, n: e.n }, ball, level) + strike(
            Edge { a: m, b: e.b, n: e.n },
            ball,
            level,
        ),
{
    reveal(strike);
    lemma_struck_is_crossed(e, ball);
    lemma_struck_is_crossed(Edge { a: e.a, b: m, n: e.n }, ball);
    lemma_struck_is_crossed(Edge { a: m, b: e.b, n: e.n }, ball);
}

/// The rim is struck as often as its four sides together, counted from any of them.
pub proof fn lemma_rim_strikes(w: Wall, k: int, ball: Ball, level: bool)
    requires
        0 <= k < 4,
    ensures
        strikes(rim(w), ball, level) == strike(side(w, k), ball, level) + strike(
            side(w, k + 1),
            ball,
            level,
        ) + strike(side(w, k + 2), ball, level) + strike(side(w, k + 3), ball, level),
{
    lemma_strikes_few(rim(w), ball, level);
    assert(side(w, 4) == side(w, 0));
    assert(side(w, 5) == side(w, 1));
    assert(side(w, 6) == side(w, 2));
}

/// An edge on which a wall is seated is struck as often as its part before the wall, the
/// side of the wall that it holds, and its part after the wall together.
pub proof fn lemma_seat_strikes(e: Edge, w: Wall, ball: Ball, level: bool)
    requires
        seated(e, w),
        sees_wall(w, ball),
    ensures
        strike(e, ball, level) == strike(
            Edge { a: e.a, b: corners_met(e, w).0, n: e.n },
            ball,
            level,
        ) + strike(side(w, e.n.index()), ball, level) + strike(
            Edge { a: corners_met(e, w).1, b: e.b, n: e.n },
            ball,
            level,
        ),
{
    let (a, b, c, d) = corners_met(e, w);
    let tail = Edge { a: a, b: e.b, n: e.n };
    lemma_strike_split(e, a, ball, level);
    lemma_strike_split(tail, b, ball, level);
    e.n.lemma_turns_compose(0, 0);
    assert(side(w, e.n.index()) == Edge { a: a, b: b, n: e.n });
}

/// The three sides of a wall that the edge on which it is seated does not hold are
/// struck, each, as often as the edge of the notch that runs along it.
pub proof fn lemma_notch_sides_strikes(e: Edge, w: Wall, ball: Ball, level: bool)
    requires
        seated(e, w),
    ensures
        strike(notch(e, w)[1], ball, level) == strike(side(w, e.n.index() + 3), ball, level),
        strike(notch(e, w)[2], ball, level) == strike(side(w, e.n.index() + 2), ball, level),
        strike(notch(e, w)[3], ball, level) == strike(side(w, e.n.index() + 1), ball, level),
{
    let k = e.n.index();
    lemma_strike_either_way(notch(e, w)[1], side(w, k + 3), ball, level);
    lemma_strike_either_way(notch(e, w)[2], side(w, k + 2), ball, level);
    lemma_strike_either_way(notch(e, w)[3], side(w, k + 1), ball, level);
}

/// The five edges of a notch are struck as often as the edge that they replace and the
/// rim of the wall together, but for an even number of strikes.
pub proof fn lemma_notch_strikes(e: Edge, w: Wall, ball: Ball, level: bool)
    requires
        seated(e, w),
        sees_wall(w, ball),
    ensures
        strikes(notch(e, w), ball, level) % 2 == (strike(e, ball, level) + strikes(
            rim(w),
            ball,
            level,
        )) % 2,
{
    lemma_strikes_few(notch(e, w), ball, level);
    lemma_rim_strikes(w, e.n.index(), ball, level);
    lemma_seat_strikes(e, w, ball, level);
    lemma_notch_sides_strikes(e, w, ball, level);
}

/// Edges that run along grid lines with the region on their right run along grid lines
/// of the kind that their facing stands for.
pub proof fn lemma_rectilinear_is_axial(edges: Seq<Edge>)
    requires
        rectilinear(edges),
    ensures
        axial(edges),
{
    assert forall|i: int| 0 <= i < edges.len() implies #[trigger] edges[i].axial() by {
        assert(edges[i].aligned());
    }
}

/// A ball that has the corners of a boundary and of a wall in plain view has those of
/// the boundary with a notch for the wall.
pub proof fn lemma_sees_notched(edges: Seq<Edge>, w: Wall, i: int, ball: Ball)
    requires
        0 <= i < edges.len(),
        sees(edges, ball),
        sees_wall(w, ball),
    ensures
        sees(notched(edges, w, i), ball),
{
    let out = notched(edges, w, i);
    let e = edges[i];
    assert(sees_edge(edges, i, ball));
    assert forall|q: int| 0 <= q < out.len() implies #[trigger] sees_edge(out, q, ball) by {
        if q < i {
            assert(sees_edge(edges, q, ball));
        } else if q < i + 5 {
            assert(out[q] == notch(e, w)[q - i]);
        } else {
            assert(out[q] == edges[q - 4]);
            assert(sees_edge(edges, q - 4, ball));
        }
    }
}

/// A sound boundary with a notch for a wall holds a ball that has all corners in plain
/// view exactly where either the boundary held it or the wall's rim holds it, not both:
/// a ball of the region is kept unless it lies within the wall.
pub proof fn lemma_notch_holds_ball(edges: Seq<Edge>, w: Wall, i: int, ball: Ball)
    requires
        sound(edges),
        w.proper(),
        notch_at(edges, w, i),
        sees(edges, ball),
        sees_wall(w, ball),
    ensures
        encloses(notched(edges, w, i), ball) == (encloses(edges, ball) != encloses(
            rim(w),
            ball,
        )),
{
    let n = edges.len() as int;
    let e = edges[i];
    let pre = edges.subrange(0, i);
    let post = edges.subrange(i + 1, n);
    let out = notched(edges, w, i);
    lemma_notch_within_edge(edges, w, i);
    assert(e.aligned());
    assert(seated(e, w));
    lemma_notch_strikes(e, w, ball, true);
    lemma_strikes_add(pre, notch(e, w), ball, true);
    lemma_strikes_add(pre + notch(e, w), post, ball, true);
    lemma_strikes_add(pre, seq![e], ball, true);
    lemma_strikes_add(pre + seq![e], post, ball, true);
    lemma_strikes_few(seq![e], ball, true);
    assert(edges =~= pre + seq![e] + post);
    lemma_rectilinear_is_axial(edges);
    lemma_rays_agree(edges, ball);
    lemma_notched_is_sound(edges, w, i);
    lemma_rectilinear_is_axial(out);
    lemma_sees_notched(edges, w, i, ball);
    lemma_rays_agree(out, ball);
    lemma_rim_is_loop(w, ball);
    lemma_rays_agree(rim(w), ball);
}

/// The six edges along the two sides of a spanning wall are struck as often as the two
/// edges that hold the wall and the rim of the wall together, but for an even number of
/// strikes.
pub proof fn lemma_span_strikes(e: Edge, f: Edge, w: Wall, ball: Ball, level: bool)
    requires
        spanning(e, f, w),
        sees_wall(w, ball),
    ensures
        (strikes(near_edges(e, f, w), ball, level) + strikes(far_edges(e, f, w), ball, level))
            % 2 == (strike(e, ball, level) + strike(f, ball, level) + strikes(
            rim(w),
            ball,
            level,
        )) % 2,
{
    let k = e.n.index();
    let near = near_edges(e, f, w);
    let far = far_edges(e, f, w);
    lemma_strikes_few(near, ball, level);
    lemma_strikes_few(far, ball, level);
    lemma_rim_strikes(w, k, ball, level);
    assert(seated(e, w));
    lemma_seat_strikes(e, w, ball, level);
    e.n.lemma_turns_compose(2, 0);
    assert(corners_met(f, w).0 == corners_met(e, w).2);
    assert(corners_met(f, w).1 == corners_met(e, w).3);
    assert(seated(f, w));
    lemma_seat_strikes(f, w, ball, level);
    assert(side(w, f.n.index()) == side(w, k + 2));
    lemma_strike_either_way(near[1], side(w, k + 3), ball, level);
    lemma_strike_either_way(far[2], side(w, k + 1), ball, level);
}

/// A ball that has the corners of a boundary in plain view has those of the boundary
/// with edges moved from its back to its front.
pub proof fn lemma_sees_rotated(s: Seq<Edge>, k: int, ball: Ball)
    requires
        0 <= k <= s.len(),
        sees(s, ball),
    ensures
        sees(rotated(s, k), ball),
{
    let r = rotated(s, k);
    assert forall|q: int| 0 <= q < r.len() implies #[trigger] sees_edge(r, q, ball) by {
        if q < k {
            assert(sees_edge(s, s.len() - k + q, ball));
        } else {
            assert(sees_edge(s, q - k, ball));
        }
    }
}

/// A ball that has the corners of a boundary and of a wall in plain view has those of
/// the boundaries on both sides of the wall where it spans from edge `i` to edge `k`.
pub proof fn lemma_sees_bridged(edges: Seq<Edge>, w: Wall, i: int, k: int, ball: Ball)
    requires
        0 <= i,
        i + 1 < k < edges.len(),
        sees(edges, ball),
        sees_wall(w, ball),
    ensures
        sees(bridged(edges, w, i, k), ball),
        sees(far_side(edges, w, i, k), ball),
{
    let near = near_edges(edges[i], edges[k], w);
    let far = far_edges(edges[i], edges[k], w);
    let out = bridged(edges, w, i, k);
    let other = far_side(edges, w, i, k);
    assert(sees_edge(edges, i, ball));
    assert(sees_edge(edges, k, ball));
    assert forall|q: int| 0 <= q < out.len() implies #[trigger] sees_edge(out, q, ball) by {
        if q < i {
            assert(sees_edge(edges, q, ball));
        } else if q < i + 3 {
            assert(out[q] == near[q - i]);
        } else {
            assert(out[q] == edges[q + k - i - 2]);
            assert(sees_edge(edges, q + k - i - 2, ball));
        }
    }
    assert forall|q: int| 0 <= q < other.len() implies #[trigger] sees_edge(other, q, ball) by {
        if q == 0 {
            assert(other[q] == far[0]);
        } else if q < k - i {
            assert(other[q] == edges[i + q]);
            assert(sees_edge(edges, i + q, ball));
        } else {
            assert(other[q] == far[q - (k - i) + 1]);
        }
    }
}

/// The boundaries on the two sides of a wall that spans from edge `i` to edge `k` are
/// struck as often as the boundary and the rim of the wall together, but for an even
/// number of strikes.
pub proof fn lemma_bridge_strikes(edges: Seq<Edge>, w: Wall, i: int, k: int, ball: Ball)
    requires
        0 <= i,
        i + 1 < k < edges.len(),
        spanning(edges[i], edges[k], w),
        sees_wall(w, ball),
    ensures
        (strikes(bridged(edges, w, i, k), ball, true) + strikes(
            cut_off(edges, w, i, k),
            ball,
            true,
        )) % 2 == (strikes(edges, ball, true) + strikes(rim(w), ball, true)) % 2,
{
    let n = edges.len() as int;
    let e = edges[i];
    let f = edges[k];
    let pre = edges.subrange(0, i);
    let mid = edges.subrange(i + 1, k);
    let post = edges.subrange(k + 1, n);
    let near = near_edges(e, f, w);
    let far = far_edges(e, f, w);
    lemma_span_strikes(e, f, w, ball, true);
    lemma_strikes_add(pre, near, ball, true);
    lemma_strikes_add(pre + near, post, ball, true);
    lemma_strikes_add(seq![far[0]], mid, ball, true);
    lemma_strikes_add(seq![far[0]] + mid, seq![far[1], far[2]], ball, true);
    lemma_strikes_few(seq![far[0]], ball, true);
    lemma_strikes_few(seq![far[1], far[2]], ball, true);
    lemma_strikes_few(far, ball, true);
    lemma_strikes_rotated(far_side(edges, w, i, k), e.n.index(), ball, true);
    lemma_strikes_add(pre, seq![e], ball, true);
    lemma_strikes_add(pre + seq![e], mid, ball, true);
    lemma_strikes_add(pre + seq![e] + mid, seq![f], ball, true);
    lemma_strikes_add(pre + seq![e] + mid + seq![f], post, ball, true);
    lemma_strikes_few(seq![e], ball, true);
    lemma_strikes_few(seq![f], ball, true);
    assert(edges =~= pre + seq![e] + mid + seq![f] + post);
}

/// Where a wall spans from one edge of a sound boundary to the edge that faces it, a
/// ball that has all corners in plain view is held by exactly one of the two boundaries
/// that come out where either the boundary held it or the wall's rim holds it, not both:
/// a ball of the region lands on one side of the wall unless it lies within the wall.
pub proof fn lemma_bridge_parts_ball(edges: Seq<Edge>, w: Wall, i: int, k: int, ball: Ball)
    requires
        sound(edges),
        w.proper(),
        bridge_at(edges, w, i, k),
        sees(edges, ball),
        sees_wall(w, ball),
    ensures
        (encloses(bridged(edges, w, i, k), ball) != encloses(cut_off(edges, w, i, k), ball))
            == (encloses(edges, ball) != encloses(rim(w), ball)),
{
    let near = bridged(edges, w, i, k);
    let far = far_side(edges, w, i, k);
    let other = cut_off(edges, w, i, k);
    lemma_bridge_within_edges(edges, w, i, k);
    lemma_bridge_spans(edges, w, i, k);
    lemma_bridge_strikes(edges, w, i, k, ball);
    lemma_sees_bridged(edges, w, i, k, ball);
    lemma_rectilinear_is_axial(edges);
    lemma_rays_agree(edges, ball);
    lemma_bridged_is_sound(edges, w, i, k);
    lemma_rectilinear_is_axial(near);
    lemma_rays_agree(near, ball);
    lemma_far_side_is_sound(edges, w, i, k);
    assert(far.len() == k - i + 2);
    lemma_rotation_keeps_sound(far, edges[i].n.index());
    lemma_sees_rotated(far, edges[i].n.index(), ball);
    lemma_rectilinear_is_axial(other);
    lemma_rays_agree(other, ball);
    lemma_rim_is_loop(w, ball);
    lemma_rays_agree(rim(w), ball);
}

/// An edge that is drawn out along a wall from its end is struck as often as the edge
/// and the side of the wall along which it is drawn out together.
pub proof fn lemma_drawn_out_strikes(e: Edge, g: Edge, w: Wall, ball: Ball, level: bool)
    requires
        cornered(e, g, w),
        sees_wall(w, ball),
    ensures
        strike(Edge { a: e.a, b: corners_met(e, w).2, n: e.n }, ball, level) == strike(
            e,
            ball,
            level,
        ) + strike(side(w, e.n.index() + 2), ball, level),
{
    let (a, b, c, d) = corners_met(e, w);
    let drawn = Edge { a: e.a, b: c, n: e.n };
    lemma_strike_split(drawn, d, ball, level);
    lemma_strike_either_way(Edge { a: d, b: c, n: e.n }, side(w, e.n.index() + 2), ball, level);
}

/// An edge that a wall covers from its start is struck as often as the side of the wall
/// that it holds and what is left of it after the wall together.
pub proof fn lemma_covered_start_strikes(e: Edge, g: Edge, w: Wall, ball: Ball, level: bool)
    requires
        cornered(e, g, w),
        sees_wall(w, ball),
    ensures
        strike(g, ball, level) == strike(side(w, e.n.index() + 3), ball, level) + strike(
            Edge { a: corners_met(e, w).0, b: g.b, n: g.n },
            ball,
            level,
        ),
{
    let (a, b, c, d) = corners_met(e, w);
    lemma_strike_split(g, a, ball, level);
    e.n.lemma_turns_compose(-1, 0);
    lemma_strike_either_way(Edge { a: d, b: a, n: g.n }, side(w, e.n.index() + 3), ball, level);
}

/// The four edges of a shelf are struck as often as the two edges that they replace and
/// the rim of the wall together, but for an even number of strikes.
pub proof fn lemma_shelf_strikes(e: Edge, g: Edge, w: Wall, ball: Ball, level: bool)
    requires
        cornered(e, g, w),
        sees_wall(w, ball),
    ensures
        strikes(shelf(e, g, w), ball, level) % 2 == (strike(e, ball, level) + strike(
            g,
            ball,
            level,
        ) + strikes(rim(w), ball, level)) % 2,
{
    let k = e.n.index();
    let pieces = shelf(e, g, w);
    lemma_strikes_few(pieces, ball, level);
    lemma_rim_strikes(w, k, ball, level);
    lemma_drawn_out_strikes(e, g, w, ball, level);
    lemma_covered_start_strikes(e, g, w, ball, level);
    lemma_strike_either_way(pieces[1], side(w, k + 1), ball, level);
    lemma_strike_either_way(pieces[2], side(w, k), ball, level);
}

/// A ball that has the corners of a boundary and of a wall in plain view has those of
/// the boundary with the wall as a shelf in a corner.
pub proof fn lemma_sees_shelved(edges: Seq<Edge>, w: Wall, i: int, ball: Ball)
    requires
        0 <= i,
        i + 1 < edges.len(),
        sees(edges, ball),
        sees_wall(w, ball),
    ensures
        sees(shelved(edges, w, i), ball),
{
    let out = shelved(edges, w, i);
    let pieces = shelf(edges[i], edges[i + 1], w);
    assert(sees_edge(edges, i, ball));
    assert(sees_edge(edges, i + 1, ball));
    assert forall|q: int| 0 <= q < out.len() implies #[trigger] sees_edge(out, q, ball) by {
        if q < i {
            assert(sees_edge(edges, q, ball));
        } else if q < i + 4 {
            assert(out[q] == pieces[q - i]);
        } else {
            assert(out[q] == edges[q - 2]);
            assert(sees_edge(edges, q - 2, ball));
        }
    }
}

/// A sound boundary with a shelf in one of its corners holds a ball that has all corners
/// in plain view exactly where either the boundary held it or the wall's rim holds it,
/// not both: a ball of the region is kept unless it lies within the wall.
pub proof fn lemma_shelf_holds_ball(edges: Seq<Edge>, w: Wall, i: int, ball: Ball)
    requires
        sound(edges),
        w.proper(),
        shelf_at(edges, w, i),
        sees(edges, ball),
        sees_wall(w, ball),
    ensures
        encloses(shelved(edges, w, i), ball) == (encloses(edges, ball) != encloses(
            rim(w),
            ball,
        )),
{
    let n = edges.len() as int;
    let e = edges[i];
    let g = edges[i + 1];
    let pre = edges.subrange(0, i);
    let post = edges.subrange(i + 2, n);
    let out = shelved(edges, w, i);
    lemma_shelf_in_corner(edges, w, i);
    lemma_shelf_strikes(e, g, w, ball, true);
    lemma_strikes_add(pre, shelf(e, g, w), ball, true);
    lemma_strikes_add(pre + shelf(e, g, w), post, ball, true);
    lemma_strikes_add(pre, seq![e, g], ball, true);
    lemma_strikes_add(pre + seq![e, g], post, ball, true);
    lemma_strikes_few(seq![e, g], ball, true);
    assert(edges =~= pre + seq![e, g] + post);
    lemma_rectilinear_is_axial(edges);
    lemma_rays_agree(edges, ball);
    lemma_shelved_is_sound(edges, w, i);
    lemma_rectilinear_is_axial(out);
    lemma_sees_shelved(edges, w, i, ball);
    lemma_rays_agree(out, ball);
    lemma_rim_is_loop(w, ball);
    lemma_rays_agree(rim(w), ball);
}

/// An edge that holds one side of a wall, off both its ends, is struck as often as its
/// part before the wall, that side, and its part after the wall together.
pub proof fn lemma_across_strikes(e: Edge, g: Edge, f: Edge, w: Wall, ball: Ball, level: bool)
    requires
        barring(e, g, f, w),
        sees_wall(w, ball),
    ensures
        strike(f, ball, level) == strike(
            Edge { a: f.a, b: corners_met(e, w).1, n: f.n },
            ball,
            level,
        ) + strike(side(w, e.n.index() + 1), ball, level) + strike(
            Edge { a: corners_met(e, w).2, b: f.b, n: f.n },
            ball,
            level,
        ),
{
    let (a, b, c, d) = corners_met(e, w);
    let tail = Edge { a: b, b: f.b, n: f.n };
    lemma_strike_split(f, b, ball, level);
    lemma_strike_split(tail, c, ball, level);
    e.n.lemma_turns_compose(1, 0);
    assert(side(w, e.n.index() + 1) == Edge { a: b, b: c, n: f.n });
}

/// The five edges along the two sides of a bar are struck as often as the three edges
/// that hold the wall and the rim of the wall together, but for an even number of
/// strikes.
pub proof fn lemma_bar_sides_strikes(e: Edge, g: Edge, f: Edge, w: Wall, ball: Ball, level: bool)
    requires
        barring(e, g, f, w),
        sees_wall(w, ball),
    ensures
        (strikes(bar_near(e, f, w), ball, level) + strikes(bar_far(e, g, f, w), ball, level))
            % 2 == (strike(e, ball, level) + strike(g, ball, level) + strike(f, ball, level)
            + strikes(rim(w), ball, level)) % 2,
{
    let k = e.n.index();
    let near = bar_near(e, f, w);
    let far = bar_far(e, g, f, w);
    lemma_strikes_few(near, ball, level);
    lemma_strikes_few(far, ball, level);
    lemma_rim_strikes(w, k, ball, level);
    lemma_drawn_out_strikes(e, g, w, ball, level);
    lemma_covered_start_strikes(e, g, w, ball, level);
    lemma_across_strikes(e, g, f, w, ball, level);
    lemma_strike_either_way(far[2], side(w, k), ball, level);
}

/// A ball that has the corners of a boundary and of a wall in plain view has those of
/// the boundaries on both sides of the wall where it is a bar from the corner after
/// edge `i` to edge `k`.
pub proof fn lemma_sees_barred(edges: Seq<Edge>, w: Wall, i: int, k: int, ball: Ball)
    requires
        0 <= i,
        i + 2 < k < edges.len(),
        sees(edges, ball),
        sees_wall(w, ball),
    ensures
        sees(barred(edges, w, i, k), ball),
        sees(behind(edges, w, i, k), ball),
{
    let near = bar_near(edges[i], edges[k], w);
    let far = bar_far(edges[i], edges[i + 1], edges[k], w);
    let out = barred(edges, w, i, k);
    let other = behind(edges, w, i, k);
    assert(sees_edge(edges, i, ball));
    assert(sees_edge(edges, i + 1, ball));
    assert(sees_edge(edges, k, ball));
    assert forall|q: int| 0 <= q < out.len() implies #[trigger] sees_edge(out, q, ball) by {
        if q < i {
            assert(sees_edge(edges, q, ball));
        } else if q < i + 2 {
            assert(out[q] == near[q - i]);
        } else {
            assert(out[q] == edges[q + k - i - 1]);
            assert(sees_edge(edges, q + k - i - 1, ball));
        }
    }
    assert forall|q: int| 0 <= q < other.len() implies #[trigger] sees_edge(other, q, ball) by {
        if q == 0 {
            assert(other[q] == far[0]);
        } else if q < k - i - 1 {
            assert(other[q] == edges[i + 1 + q]);
            assert(sees_edge(edges, i + 1 + q, ball));
        } else {
            assert(other[q] == far[q - (k - i - 1) + 1]);
        }
    }
}

/// The boundaries on the two sides of a bar are struck as often as the boundary and the
/// rim of the wall together, but for an even number of strikes.
pub proof fn lemma_bar_strikes(edges: Seq<Edge>, w: Wall, i: int, k: int, ball: Ball)
    requires
        0 <= i,
        i + 2 < k < edges.len(),
        barring(edges[i], edges[i + 1], edges[k], w),
        sees_wall(w, ball),
    ensures
        (strikes(barred(edges, w, i, k), ball, true) + strikes(
            behind(edges, w, i, k),
            ball,
            true,
        )) % 2 == (strikes(edges, ball, true) + strikes(rim(w), ball, true)) % 2,
{
    let n = edges.len() as int;
    let e = edges[i];
    let g = edges[i + 1];
    let f = edges[k];
    let pre = edges.subrange(0, i);
    let mid = edges.subrange(i + 2, k);
    let post = edges.subrange(k + 1, n);
    let near = bar_near(e, f, w);
    let far = bar_far(e, g, f, w);
    lemma_bar_sides_strikes(e, g, f, w, ball, true);
    lemma_strikes_add(pre, near, ball, true);
    lemma_strikes_add(pre + near, post, ball, true);
    lemma_strikes_add(seq![far[0]], mid, ball, true);
    lemma_strikes_add(seq![far[0]] + mid, seq![far[1], far[2]], ball, true);
    lemma_strikes_few(seq![far[0]], ball, true);
    lemma_strikes_few(seq![far[1], far[2]], ball, true);
    lemma_strikes_few(far, ball, true);
    lemma_strikes_add(pre, seq![e, g], ball, true);
    lemma_strikes_add(pre + seq![e, g], mid, ball, true);
    lemma_strikes_add(pre + seq![e, g] + mid, seq![f], ball, true);
    lemma_strikes_add(pre + seq![e, g] + mid + seq![f], post, ball, true);
    lemma_strikes_few(seq![e, g], ball, true);
    lemma_strikes_few(seq![f], ball, true);
    assert(edges =~= pre + seq![e, g] + mid + seq![f] + post);
}

/// Where a bar reaches from an inward corner of a sound boundary to the edge across, a
/// ball that has all corners in plain view is held by exactly one of the two boundaries
/// that come out where either the boundary held it or the wall's rim holds it, not both:
/// a ball of the region lands on one side of the wall unless it lies within the wall.
pub proof fn lemma_bar_parts_ball(edges: Seq<Edge>, w: Wall, i: int, k: int, ball: Ball)
    requires
        sound(edges),
        w.proper(),
        bar_at(edges, w, i, k),
        sees(edges, ball),
        sees_wall(w, ball),
    ensures
        (encloses(barred(edges, w, i, k), ball) != encloses(behind(edges, w, i, k), ball))
            == (encloses(edges, ball) != encloses(rim(w), ball)),
{
    let near = barred(edges, w, i, k);
    let other = behind(edges, w, i, k);
    lemma_bar_in_place(edges, w, i, k);
    lemma_bar_strikes(edges, w, i, k, ball);
    lemma_sees_barred(edges, w, i, k, ball);
    lemma_rectilinear_is_axial(edges);
    lemma_rays_agree(edges, ball);
    lemma_barred_is_sound(edges, w, i, k);
    lemma_rectilinear_is_axial(near);
    lemma_rays_agree(near, ball);
    lemma_behind_is_sound(edges, w, i, k);
    lemma_rectilinear_is_axial(other);
    lemma_rays_agree(other, ball);
    lemma_rim_is_loop(w, ball);
    lemma_rays_agree(rim(w), ball);
}

} // verus!
