//! What holds of the regions that the cut of a wall yields.

use vstd::prelude::*;
use crate::game::area::{accepts_from, kept_from, peopled, region_within, severed_from, Region};
use crate::game::ball::{enclosed, encloses, Ball};
use crate::game::boundary::{
    chained, closed, joined, lemma_chains_join, lemma_rotation_keeps_loop, lemma_subchain,
    rectilinear, sound, turns_at,
};
use crate::game::edge::{lemma_first_holding, Edge};
use crate::game::wall::{
    apart, between, corners_met, defined_at, far_corner, landing, leading_loop,
    lemma_apart_is_clear, lemma_splice_advances, splice_at, touch, trailing_loop, untouched,
    Wall,
};

verus! {

/// Where the cut leaves every edge from `from` up to `to` alone, it keeps them as they
/// are, severs nothing there, and is defined there.
pub proof fn lemma_clear_run(edges: Seq<Edge>, w: Wall, from: int, to: int)
    requires
        0 <= from <= to <= edges.len(),
        forall|j: int| from <= j < to ==> #[trigger] touch(edges[j], w) is Clear,
    ensures
        kept_from(edges, w, from) == edges.subrange(from, to) + kept_from(edges, w, to),
        severed_from(edges, w, from) == severed_from(edges, w, to),
        accepts_from(edges, w, from) == accepts_from(edges, w, to),
    decreases to - from,
{
    if from < to {
        assert(touch(edges[from], w) is Clear);
        assert(defined_at(edges, w, from) && splice_at(edges, w, from) == untouched(edges, from))
            by {
            reveal(splice_at);
            reveal(defined_at);
        }
        lemma_clear_run(edges, w, from + 1, to);
        assert(seq![edges[from]] + (edges.subrange(from + 1, to) + kept_from(edges, w, to))
            =~= edges.subrange(from, to) + kept_from(edges, w, to));
    } else {
        assert(edges.subrange(from, to) + kept_from(edges, w, to) =~= kept_from(edges, w, to));
    }
}

/// The wall touches no edge of the boundary.
pub open spec fn clear_of(edges: Seq<Edge>, w: Wall) -> bool {
    forall|j: int| 0 <= j < edges.len() ==> #[trigger] apart(edges[j], w)
}

/// A proper wall that touches no edge of a boundary along grid lines is accepted, and
/// the cut keeps the boundary as it is and severs nothing.
pub proof fn lemma_clear_is_cut(edges: Seq<Edge>, w: Wall)
    requires
        rectilinear(edges),
        w.proper(),
        clear_of(edges, w),
    ensures
        accepts_from(edges, w, 0),
        kept_from(edges, w, 0) == edges,
        severed_from(edges, w, 0).len() == 0,
{
    let n = edges.len() as int;
    assert forall|j: int| 0 <= j < n implies #[trigger] touch(edges[j], w) is Clear by {
        assert(edges[j].aligned());
        assert(apart(edges[j], w));
        lemma_apart_is_clear(edges[j], w);
    }
    lemma_clear_run(edges, w, 0, n);
    assert(kept_from(edges, w, n) =~= Seq::<Edge>::empty());
    assert(edges.subrange(0, n) + kept_from(edges, w, n) =~= edges);
}

/// Cutting a proper wall that touches no edge of the boundary yields the region within
/// the boundary, and nothing else.
pub proof fn lemma_clear_yields_the_region(area: Region, w: Wall)
    requires
        rectilinear(area.edges),
        w.proper(),
        clear_of(area.edges, w),
    ensures
        area.accepts(w),
        area.divided(w) == seq![region_within(area.edges, area.balls)],
{
    lemma_clear_is_cut(area.edges, w);
    assert(severed_from(area.edges, w, 0) =~= Seq::<Seq<Edge>>::empty());
    assert(area.divided(w) =~= seq![region_within(area.edges, area.balls)]);
}

/// Where the cut leaves every edge alone but edge `i` and those that the splice of edge
/// `i` consumes, it keeps the edges before, what the splice keeps, and the edges after,
/// and it severs what the splice severs.
pub proof fn lemma_one_splice(edges: Seq<Edge>, w: Wall, i: int)
    requires
        0 <= i < edges.len(),
        defined_at(edges, w, i),
        forall|j: int|
            0 <= j < edges.len() && (j < i || splice_at(edges, w, i).next <= j)
                ==> #[trigger] touch(edges[j], w) is Clear,
    ensures
        accepts_from(edges, w, 0),
        kept_from(edges, w, 0) == edges.subrange(0, i) + splice_at(edges, w, i).kept
            + edges.subrange(splice_at(edges, w, i).next, edges.len() as int),
        severed_from(edges, w, 0) == match splice_at(edges, w, i).severed {
            Some(other) => seq![other],
            None => Seq::empty(),
        },
{
    let n = edges.len() as int;
    let s = splice_at(edges, w, i);
    lemma_splice_advances(edges, w, i);
    lemma_clear_run(edges, w, 0, i);
    lemma_clear_run(edges, w, s.next, n);
    assert(kept_from(edges, w, n) =~= Seq::<Edge>::empty());
    assert(severed_from(edges, w, n) =~= Seq::<Seq<Edge>>::empty());
    assert(kept_from(edges, w, s.next) =~= edges.subrange(s.next, n));
    assert(kept_from(edges, w, i) == s.kept + kept_from(edges, w, s.next));
    assert(severed_from(edges, w, 0) =~= match s.severed {
        Some(other) => seq![other],
        None => Seq::empty(),
    });
}

/// What a splice keeps is a chain from the start of its edge to the end of the last edge
/// that it consumes.
pub proof fn lemma_splice_keeps_chain(edges: Seq<Edge>, w: Wall, i: int)
    requires
        0 <= i < edges.len(),
        defined_at(edges, w, i),
    ensures
        splice_at(edges, w, i).kept.len() > 0,
        chained(splice_at(edges, w, i).kept),
        splice_at(edges, w, i).kept[0].a == edges[i].a,
        splice_at(edges, w, i).kept.last().b == edges[splice_at(edges, w, i).next - 1].b,
{
    reveal(splice_at);
    reveal(defined_at);
    lemma_first_holding(edges.skip(i + 1), far_corner(edges[i], w));
    let kept = splice_at(edges, w, i).kept;
    assert forall|j: int| 0 <= j < kept.len() - 1 implies #[trigger] joined(kept, j) by {}
}

/// What the cut keeps from edge `i` on is a chain from the start of that edge to the end
/// of the last edge.
pub proof fn lemma_kept_is_chain(edges: Seq<Edge>, w: Wall, i: int)
    requires
        chained(edges),
        0 <= i < edges.len(),
        accepts_from(edges, w, i),
    ensures
        kept_from(edges, w, i).len() > 0,
        chained(kept_from(edges, w, i)),
        kept_from(edges, w, i)[0].a == edges[i].a,
        kept_from(edges, w, i).last().b == edges.last().b,
    decreases edges.len() - i,
{
    lemma_splice_advances(edges, w, i);
    lemma_splice_keeps_chain(edges, w, i);
    let s = splice_at(edges, w, i);
    let later = kept_from(edges, w, s.next);
    if s.next < edges.len() {
        lemma_kept_is_chain(edges, w, s.next);
        assert(joined(edges, s.next - 1));
        lemma_chains_join(s.kept, later);
        assert((s.kept + later).last() == later.last());
    } else {
        assert(s.kept + later =~= s.kept);
    }
}

/// On a sound boundary, a boundary that a splice severs with a proper wall is a loop.
pub proof fn lemma_splice_severs_loop(edges: Seq<Edge>, w: Wall, i: int)
    requires
        sound(edges),
        w.proper(),
        0 <= i < edges.len(),
        defined_at(edges, w, i),
        splice_at(edges, w, i).severed.is_some(),
    ensures
        closed(splice_at(edges, w, i).severed->0),
{
    reveal(splice_at);
    reveal(defined_at);
    let e = edges[i];
    let rest = edges.skip(i + 1);
    lemma_first_holding(rest, far_corner(e, w));
    let ci = landing(edges, w, i)->0;
    let land = rest[ci];
    let (a, b, c, d) = corners_met(e, w);
    assert(joined(edges, i));
    assert(turns_at(edges, i));
    assert(edges[i + 1].aligned());
    assert(e.aligned());
    assert(rest[0] == edges[i + 1]);
    let mid = between(rest, 1, ci);
    lemma_subchain(edges, i + 1, edges.len() as int);
    assert(rest =~= edges.subrange(i + 1, edges.len() as int));
    if touch(e, w) is Trailing {
        assert(ci >= 1);
        lemma_subchain(rest, 1, ci);
        let head = seq![Edge { a: a, b: rest[0].b, n: rest[0].n }];
        let tail = seq![
            Edge { a: land.a, b: b, n: land.n },
            Edge { a: b, b: a, n: land.n.turned(1) },
        ];
        assert(joined(rest, ci - 1));
        if ci >= 2 {
            assert(joined(rest, 0));
        }
        assert(chained(head));
        assert(chained(tail)) by {
            assert forall|j: int| 0 <= j < tail.len() - 1 implies #[trigger] joined(tail, j) by {}
        }
        lemma_chains_join(head, mid);
        lemma_chains_join(head + mid, tail);
        assert(trailing_loop(edges, w, i, ci) == head + mid + tail);
    } else {
        let tail = seq![
            Edge { a: land.a, b: c, n: land.n },
            Edge { a: c, b: if b != e.b { b } else { rest[0].b }, n: land.n.turned(1) },
        ];
        assert(chained(tail)) by {
            assert forall|j: int| 0 <= j < tail.len() - 1 implies #[trigger] joined(tail, j) by {}
        }
        if b != e.b {
            let head = seq![Edge { a: b, b: e.b, n: e.n }];
            let mid0 = between(rest, 0, ci);
            lemma_subchain(rest, 0, ci);
            if ci >= 1 {
                assert(joined(rest, ci - 1));
            }
            assert(chained(head));
            lemma_chains_join(head, mid0);
            lemma_chains_join(head + mid0, tail);
            assert(leading_loop(edges, w, i, ci) == head + mid0 + tail);
        } else {
            assert(ci >= 1);
            lemma_subchain(rest, 1, ci);
            assert(joined(rest, ci - 1));
            if ci >= 2 {
                assert(joined(rest, 0));
            }
            lemma_chains_join(mid, tail);
            assert(leading_loop(edges, w, i, ci) == mid + tail);
        }
        lemma_rotation_keeps_loop(leading_loop(edges, w, i, ci), e.n.index());
    }
}

/// On a sound boundary, every boundary that the cut of a proper wall severs is a loop.
pub proof fn lemma_severed_are_loops(edges: Seq<Edge>, w: Wall, i: int)
    requires
        sound(edges),
        w.proper(),
        0 <= i,
        accepts_from(edges, w, i),
    ensures
        forall|k: int|
            0 <= k < severed_from(edges, w, i).len() ==> closed(
                #[trigger] severed_from(edges, w, i)[k],
            ),
    decreases edges.len() - i,
{
    if i < edges.len() {
        lemma_splice_advances(edges, w, i);
        let s = splice_at(edges, w, i);
        lemma_severed_are_loops(edges, w, s.next);
        let later = severed_from(edges, w, s.next);
        let all = severed_from(edges, w, i);
        if s.severed.is_some() {
            lemma_splice_severs_loop(edges, w, i);
            assert(all == seq![s.severed->0] + later);
            assert forall|k: int| 0 <= k < all.len() implies closed(#[trigger] all[k]) by {
                if k > 0 {
                    assert(all[k] == later[k - 1]);
                }
            }
        } else {
            assert(all == later);
        }
    }
}

/// Each region of `peopled` lies within one of the loops, and holds the balls that this
/// loop encloses, of which there is at least one.
pub proof fn lemma_peopled_from_loops(loops: Seq<Seq<Edge>>, balls: Seq<Ball>)
    ensures
        peopled(loops, balls).len() <= loops.len(),
        forall|k: int|
            0 <= k < peopled(loops, balls).len() ==> exists|j: int|
                0 <= j < loops.len() && #[trigger] peopled(loops, balls)[k] == region_within(
                    #[trigger] loops[j],
                    balls,
                ) && peopled(loops, balls)[k].balls.len() > 0,
    decreases loops.len(),
{
    if loops.len() > 0 {
        let head = loops.drop_last();
        lemma_peopled_from_loops(head, balls);
        let p = peopled(loops, balls);
        assert forall|k: int| 0 <= k < p.len() implies exists|j: int|
            0 <= j < loops.len() && #[trigger] p[k] == region_within(#[trigger] loops[j], balls)
                && p[k].balls.len() > 0 by {
            if k < peopled(head, balls).len() {
                let j = choose|j: int|
                    0 <= j < head.len() && #[trigger] peopled(head, balls)[k] == region_within(
                        #[trigger] head[j],
                        balls,
                    ) && peopled(head, balls)[k].balls.len() > 0;
                assert(loops[j] == head[j]);
            } else {
                assert(p[k] == region_within(loops[loops.len() - 1], balls));
            }
        }
    }
}

/// Cutting a proper wall into a sound boundary yields loops: the boundary of every
/// region that comes out is closed.
pub proof fn lemma_cut_yields_loops(area: Region, w: Wall)
    requires
        sound(area.edges),
        w.proper(),
        area.accepts(w),
    ensures
        forall|k: int|
            0 <= k < area.divided(w).len() ==> closed(#[trigger] area.divided(w)[k].edges),
{
    let out = area.divided(w);
    let loops = severed_from(area.edges, w, 0);
    lemma_kept_is_chain(area.edges, w, 0);
    lemma_severed_are_loops(area.edges, w, 0);
    lemma_peopled_from_loops(loops, area.balls);
    assert forall|k: int| 0 <= k < out.len() implies closed(#[trigger] out[k].edges) by {
        if k > 0 {
            let r = peopled(loops, area.balls)[k - 1];
            assert(out[k] == r);
            let j = choose|j: int|
                0 <= j < loops.len() && r == region_within(#[trigger] loops[j], area.balls);
            assert(closed(loops[j]));
        }
    }
}

/// What a boundary holds of the balls it is given: each ball that it holds is one of
/// them, and the boundary encloses it.
pub proof fn lemma_enclosed_are_held(edges: Seq<Edge>, balls: Seq<Ball>)
    ensures
        enclosed(edges, balls).len() <= balls.len(),
        forall|k: int|
            0 <= k < enclosed(edges, balls).len() ==> encloses(
                edges,
                #[trigger] enclosed(edges, balls)[k],
            ) && balls.contains(enclosed(edges, balls)[k]),
    decreases balls.len(),
{
    if balls.len() > 0 {
        let head = balls.drop_last();
        lemma_enclosed_are_held(edges, head);
        let held = enclosed(edges, balls);
        assert forall|k: int| 0 <= k < held.len() implies encloses(edges, #[trigger] held[k])
            && balls.contains(held[k]) by {
            if k < enclosed(edges, head).len() {
                let b = enclosed(edges, head)[k];
                assert(head.contains(b));
                let j = choose|j: int| 0 <= j < head.len() && head[j] == b;
                assert(balls[j] == b);
            } else {
                assert(held[k] == balls[balls.len() - 1]);
            }
        }
    }
}

/// After a cut every ball lies within the boundary of the region that holds it, and is
/// a ball of the region that was cut.
pub proof fn lemma_regions_hold_their_balls(area: Region, w: Wall)
    ensures
        forall|k: int, b: int|
            0 <= k < area.divided(w).len() && 0 <= b < area.divided(w)[k].balls.len()
                ==> encloses(area.divided(w)[k].edges, #[trigger] area.divided(w)[k].balls[b])
                && area.balls.contains(area.divided(w)[k].balls[b]),
{
    let out = area.divided(w);
    let kept = kept_from(area.edges, w, 0);
    let loops = severed_from(area.edges, w, 0);
    lemma_peopled_from_loops(loops, area.balls);
    lemma_enclosed_are_held(kept, area.balls);
    assert forall|k: int, b: int|
        0 <= k < out.len() && 0 <= b < out[k].balls.len() implies encloses(
        out[k].edges,
        #[trigger] out[k].balls[b],
    ) && area.balls.contains(out[k].balls[b]) by {
        if k > 0 {
            let r = peopled(loops, area.balls)[k - 1];
            assert(out[k] == r);
            let j = choose|j: int|
                0 <= j < loops.len() && r == region_within(#[trigger] loops[j], area.balls);
            lemma_enclosed_are_held(loops[j], area.balls);
        }
    }
}

} // verus!
