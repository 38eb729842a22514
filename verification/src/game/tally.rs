//! How many balls the regions hold that the cut of a wall yields.

use vstd::prelude::*;
use crate::game::area::{kept_from, peopled, region_within, regions, severed_from, Region};
use crate::game::ball::{enclosed, encloses, Ball};
use crate::game::bar::{bar_at, barred, behind, lemma_bar_is_cut};
use crate::game::boundary::{rectilinear, sound};
use crate::game::bridge::{bridge_at, bridged, cut_off, lemma_bridge_is_cut};
use crate::game::edge::Edge;
use crate::game::insertion::{clear_of, lemma_clear_yields_the_region};
use crate::game::notch::{lemma_notch_yields_one_region, notch_at, notched};
use crate::game::parity::{
    lemma_bar_parts_ball, lemma_bridge_parts_ball, lemma_notch_holds_ball,
    lemma_shelf_holds_ball, sees_wall,
};
use crate::game::rays::{one_if, sees};
use crate::game::shelf::{lemma_shelf_yields_one_region, shelf_at, shelved};
use crate::game::wall::{rim, Wall};

verus! {

/// The balls of all `regions`, counted.
pub open spec fn ball_count(regions: Seq<Region>) -> nat
    decreases regions.len(),
{
    if regions.len() == 0 {
        0
    } else {
        ball_count(regions.drop_last()) + regions.last().balls.len()
    }
}

/// How many of `loops` hold `ball`.
pub open spec fn holders(loops: Seq<Seq<Edge>>, ball: Ball) -> nat
    decreases loops.len(),
{
    if loops.len() == 0 {
        0
    } else {
        holders(loops.drop_last(), ball) + one_if(encloses(loops.last(), ball))
    }
}

/// For each of `loops` the number of `balls` that it holds, summed up.
pub open spec fn held_in(loops: Seq<Seq<Edge>>, balls: Seq<Ball>) -> nat
    decreases loops.len(),
{
    if loops.len() == 0 {
        0
    } else {
        held_in(loops.drop_last(), balls) + enclosed(loops.last(), balls).len()
    }
}

/// The boundaries among which the cut of `w` deals out the balls of a region with the
/// boundary `edges`: the one that is kept, then those that are severed.
pub open spec fn boundaries(edges: Seq<Edge>, w: Wall) -> Seq<Seq<Edge>> {
    seq![kept_from(edges, w, 0)] + severed_from(edges, w, 0)
}

/// One more ball adds to the sum as many as there are loops that hold it.
pub proof fn lemma_held_in_push(loops: Seq<Seq<Edge>>, balls: Seq<Ball>, ball: Ball)
    ensures
        held_in(loops, balls.push(ball)) == held_in(loops, balls) + holders(loops, ball),
    decreases loops.len(),
{
    if loops.len() > 0 {
        lemma_held_in_push(loops.drop_last(), balls, ball);
        assert(balls.push(ball).drop_last() =~= balls);
    }
}

/// Of no balls the loops hold none.
pub proof fn lemma_held_in_none(loops: Seq<Seq<Edge>>)
    ensures
        held_in(loops, Seq::<Ball>::empty()) == 0,
    decreases loops.len(),
{
    if loops.len() > 0 {
        lemma_held_in_none(loops.drop_last());
    }
}

/// Where each ball is held by exactly one of the loops, the loops hold as many balls
/// together as there are.
pub proof fn lemma_held_once(loops: Seq<Seq<Edge>>, balls: Seq<Ball>)
    requires
        forall|b: int| 0 <= b < balls.len() ==> #[trigger] holders(loops, balls[b]) == 1,
    ensures
        held_in(loops, balls) == balls.len(),
    decreases balls.len(),
{
    if balls.len() == 0 {
        assert(balls =~= Seq::<Ball>::empty());
        lemma_held_in_none(loops);
    } else {
        let head = balls.drop_last();
        assert forall|b: int| 0 <= b < head.len() implies #[trigger] holders(loops, head[b])
            == 1 by {
            assert(head[b] == balls[b]);
        }
        lemma_held_once(loops, head);
        lemma_held_in_push(loops, head, balls.last());
        assert(head.push(balls.last()) =~= balls);
    }
}

/// The regions within the loops that hold a ball hold as many balls together as the
/// loops do: a loop that is left out holds none.
pub proof fn lemma_peopled_count(loops: Seq<Seq<Edge>>, balls: Seq<Ball>)
    ensures
        ball_count(peopled(loops, balls)) == held_in(loops, balls),
    decreases loops.len(),
{
    if loops.len() > 0 {
        lemma_peopled_count(loops.drop_last(), balls);
        let before = peopled(loops.drop_last(), balls);
        let r = region_within(loops.last(), balls);
        if r.balls.len() > 0 {
            assert(before.push(r).drop_last() =~= before);
        }
    }
}

/// A loop put before the others adds the balls that it holds.
pub proof fn lemma_held_in_first(first: Seq<Edge>, loops: Seq<Seq<Edge>>, balls: Seq<Ball>)
    ensures
        held_in(seq![first] + loops, balls) == enclosed(first, balls).len() + held_in(
            loops,
            balls,
        ),
    decreases loops.len(),
{
    let all = seq![first] + loops;
    if loops.len() == 0 {
        assert(all.drop_last() =~= Seq::<Seq<Edge>>::empty());
        assert(held_in(all.drop_last(), balls) == 0);
        assert(all.last() == first);
    } else {
        lemma_held_in_first(first, loops.drop_last(), balls);
        assert(all.drop_last() =~= seq![first] + loops.drop_last());
        assert(all.last() == loops.last());
    }
}

/// A region put before the others adds its balls.
pub proof fn lemma_ball_count_first(first: Region, regions: Seq<Region>)
    ensures
        ball_count(seq![first] + regions) == first.balls.len() + ball_count(regions),
    decreases regions.len(),
{
    let all = seq![first] + regions;
    if regions.len() == 0 {
        assert(all.drop_last() =~= Seq::<Region>::empty());
        assert(ball_count(all.drop_last()) == 0);
        assert(all.last() == first);
    } else {
        lemma_ball_count_first(first, regions.drop_last());
        assert(all.drop_last() =~= seq![first] + regions.drop_last());
        assert(all.last() == regions.last());
    }
}

/// The regions that a cut yields hold as many balls together as the boundaries among
/// which it deals them out: a boundary without a ball yields no region, and costs none.
pub proof fn lemma_cut_counts(area: Region, w: Wall)
    ensures
        ball_count(area.divided(w)) == held_in(boundaries(area.edges, w), area.balls),
{
    let kept = kept_from(area.edges, w, 0);
    let loops = severed_from(area.edges, w, 0);
    lemma_peopled_count(loops, area.balls);
    lemma_held_in_first(kept, loops, area.balls);
    lemma_ball_count_first(region_within(kept, area.balls), peopled(loops, area.balls));
}

/// The cut of a wall keeps the number of balls where each ball of the region is held
/// by exactly one of the boundaries that the cut makes.
pub proof fn lemma_cut_keeps_count(area: Region, w: Wall)
    requires
        forall|b: int|
            0 <= b < area.balls.len() ==> #[trigger] holders(
                boundaries(area.edges, w),
                area.balls[b],
            ) == 1,
    ensures
        ball_count(area.divided(w)) == area.balls.len(),
{
    lemma_cut_counts(area, w);
    lemma_held_once(boundaries(area.edges, w), area.balls);
}

/// The ball is one that a cut of `w` into `edges` has to place: the boundary holds it,
/// the wall's rim does not, and the ball has the corners of both in plain view.
pub open spec fn at_large(edges: Seq<Edge>, w: Wall, ball: Ball) -> bool {
    &&& encloses(edges, ball)
    &&& !encloses(rim(w), ball)
    &&& sees(edges, ball)
    &&& sees_wall(w, ball)
}

/// A boundary that holds every one of the balls holds them all, in their order.
pub proof fn lemma_encloses_all(edges: Seq<Edge>, balls: Seq<Ball>)
    requires
        forall|b: int| 0 <= b < balls.len() ==> encloses(edges, #[trigger] balls[b]),
    ensures
        enclosed(edges, balls) == balls,
    decreases balls.len(),
{
    if balls.len() > 0 {
        let head = balls.drop_last();
        assert forall|b: int| 0 <= b < head.len() implies encloses(edges, #[trigger] head[b]) by {
            assert(head[b] == balls[b]);
        }
        lemma_encloses_all(edges, head);
        assert(encloses(edges, balls[balls.len() - 1]));
        assert(head.push(balls.last()) =~= balls);
    } else {
        assert(balls =~= Seq::<Ball>::empty());
    }
}

/// A wall clear of the boundary keeps the balls: where a proper wall touches no edge of
/// a boundary along grid lines that holds every ball of the region, the one region that
/// comes out is the region as it was.
pub proof fn lemma_clear_keeps_balls(area: Region, w: Wall)
    requires
        rectilinear(area.edges),
        w.proper(),
        clear_of(area.edges, w),
        forall|b: int| 0 <= b < area.balls.len() ==> encloses(area.edges, #[trigger] area.balls[b]),
    ensures
        area.divided(w) == seq![area],
{
    lemma_clear_yields_the_region(area, w);
    lemma_encloses_all(area.edges, area.balls);
}

/// A notch keeps the balls: where a wall lies against one edge of a sound boundary,
/// clear of all others, and the region's balls are at large, the one region that comes
/// out holds them all.
pub proof fn lemma_notch_keeps_balls(area: Region, w: Wall, i: int)
    requires
        sound(area.edges),
        w.proper(),
        notch_at(area.edges, w, i),
        forall|b: int|
            0 <= b < area.balls.len() ==> at_large(area.edges, w, #[trigger] area.balls[b]),
    ensures
        area.divided(w) == seq![
            Region { balls: area.balls, edges: notched(area.edges, w, i) },
        ],
{
    let out = notched(area.edges, w, i);
    lemma_notch_yields_one_region(area, w, i);
    assert forall|b: int| 0 <= b < area.balls.len() implies encloses(
        out,
        #[trigger] area.balls[b],
    ) by {
        assert(at_large(area.edges, w, area.balls[b]));
        lemma_notch_holds_ball(area.edges, w, i, area.balls[b]);
    }
    lemma_encloses_all(out, area.balls);
}

/// A bridge keeps the number of balls: where a wall spans from one edge of a sound
/// boundary to the edge that faces it, clear of all others, and the region's balls are
/// at large, the regions that come out hold as many balls together as the region held.
pub proof fn lemma_bridge_keeps_count(area: Region, w: Wall, i: int, k: int)
    requires
        sound(area.edges),
        w.proper(),
        bridge_at(area.edges, w, i, k),
        forall|b: int|
            0 <= b < area.balls.len() ==> at_large(area.edges, w, #[trigger] area.balls[b]),
    ensures
        ball_count(area.divided(w)) == area.balls.len(),
{
    let near = bridged(area.edges, w, i, k);
    let far = cut_off(area.edges, w, i, k);
    lemma_bridge_is_cut(area.edges, w, i, k);
    assert(boundaries(area.edges, w) =~= seq![near, far]);
    assert forall|b: int| 0 <= b < area.balls.len() implies encloses(
        near,
        #[trigger] area.balls[b],
    ) != encloses(far, area.balls[b]) by {
        assert(at_large(area.edges, w, area.balls[b]));
        lemma_bridge_parts_ball(area.edges, w, i, k, area.balls[b]);
    }
    lemma_two_hold_all(near, far, area.balls);
    lemma_cut_counts(area, w);
}

/// A shelf keeps the balls: where a wall lies in an inward corner of a sound boundary,
/// clear of all other edges, and the region's balls are at large, the one region that
/// comes out holds them all.
pub proof fn lemma_shelf_keeps_balls(area: Region, w: Wall, i: int)
    requires
        sound(area.edges),
        w.proper(),
        shelf_at(area.edges, w, i),
        forall|b: int|
            0 <= b < area.balls.len() ==> at_large(area.edges, w, #[trigger] area.balls[b]),
    ensures
        area.divided(w) == seq![
            Region { balls: area.balls, edges: shelved(area.edges, w, i) },
        ],
{
    let out = shelved(area.edges, w, i);
    lemma_shelf_yields_one_region(area, w, i);
    assert forall|b: int| 0 <= b < area.balls.len() implies encloses(
        out,
        #[trigger] area.balls[b],
    ) by {
        assert(at_large(area.edges, w, area.balls[b]));
        lemma_shelf_holds_ball(area.edges, w, i, area.balls[b]);
    }
    lemma_encloses_all(out, area.balls);
}

/// Where each ball is held by exactly one of two boundaries, the two hold as many balls
/// together as there are.
pub proof fn lemma_two_hold_all(near: Seq<Edge>, far: Seq<Edge>, balls: Seq<Ball>)
    requires
        forall|b: int|
            0 <= b < balls.len() ==> encloses(near, #[trigger] balls[b]) != encloses(
                far,
                balls[b],
            ),
    ensures
        held_in(seq![near, far], balls) == balls.len(),
{
    let loops = seq![near, far];
    assert(loops.drop_last() =~= seq![near]);
    assert(loops.drop_last().drop_last() =~= Seq::<Seq<Edge>>::empty());
    assert forall|b: int| 0 <= b < balls.len() implies #[trigger] holders(loops, balls[b])
        == 1 by {
        let ball = balls[b];
        assert(holders(loops.drop_last().drop_last(), ball) == 0);
        assert(holders(loops.drop_last(), ball) == one_if(encloses(near, ball)));
        assert(holders(loops, ball) == one_if(encloses(near, ball)) + one_if(
            encloses(far, ball),
        ));
    }
    lemma_held_once(loops, balls);
}

/// A bar keeps the number of balls: where a wall reaches from an inward corner of a
/// sound boundary to the edge across, clear of all other edges, and the region's balls
/// are at large, the regions that come out hold as many balls together as the region
/// held.
pub proof fn lemma_bar_keeps_count(area: Region, w: Wall, i: int, k: int)
    requires
        sound(area.edges),
        w.proper(),
        bar_at(area.edges, w, i, k),
        forall|b: int|
            0 <= b < area.balls.len() ==> at_large(area.edges, w, #[trigger] area.balls[b]),
    ensures
        ball_count(area.divided(w)) == area.balls.len(),
{
    let near = barred(area.edges, w, i, k);
    let far = behind(area.edges, w, i, k);
    lemma_bar_is_cut(area.edges, w, i, k);
    assert(boundaries(area.edges, w) =~= seq![near, far]);
    assert forall|b: int| 0 <= b < area.balls.len() implies encloses(
        near,
        #[trigger] area.balls[b],
    ) != encloses(far, area.balls[b]) by {
        assert(at_large(area.edges, w, area.balls[b]));
        lemma_bar_parts_ball(area.edges, w, i, k, area.balls[b]);
    }
    lemma_two_hold_all(near, far, area.balls);
    lemma_cut_counts(area, w);
}

} // verus!
