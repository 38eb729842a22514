//! Regions, and the cut of a wall into the boundary of one.

use vstd::prelude::*;
use crate::game::ball::{balls_held, boundary_holds, enclosed, encloses, Ball};
use crate::game::boundary::{closed, sound};
use crate::game::edge::Edge;
use crate::game::insertion::{lemma_cut_yields_loops, lemma_regions_hold_their_balls};
use crate::game::point::Point;
use crate::game::wall::{defined_at, lemma_splice_advances, splice, splice_at, Wall};

verus! {

/// A connected playable region: the closed boundary around it, walked clockwise, and the
/// balls inside it.
#[derive(Debug, PartialEq)]
pub struct LiveArea {
    pub balls: Vec<Ball>,
    pub edges: Vec<Edge>,
}

/// A region as contracts speak of it.
pub struct Region {
    pub balls: Seq<Ball>,
    pub edges: Seq<Edge>,
}

impl View for LiveArea {
    type V = Region;

    open spec fn view(&self) -> Region {
        Region { balls: self.balls@, edges: self.edges@ }
    }
}

impl Clone for LiveArea {
    fn clone(&self) -> (copy: LiveArea)
        ensures
            copy@ == self@,
    {
        let balls: Vec<Ball> = self.balls.clone();
        let edges: Vec<Edge> = self.edges.clone();
        proof {
            assert(balls@ =~= self.balls@);
            assert(edges@ =~= self.edges@);
        }
        LiveArea { balls, edges }
    }
}

/// The views of the regions of `areas`, in their order.
pub open spec fn regions(areas: Seq<LiveArea>) -> Seq<Region> {
    Seq::new(areas.len(), |k: int| areas[k]@)
}

/// Whether the cut of `w` is defined at every edge that it reaches from edge `i` on.
pub open spec fn accepts_from(edges: Seq<Edge>, w: Wall, i: int) -> bool
    decreases edges.len() - i,
{
    if 0 <= i < edges.len() {
        proof {
            lemma_splice_advances(edges, w, i);
        }
        defined_at(edges, w, i) && accepts_from(edges, w, splice_at(edges, w, i).next)
    } else {
        true
    }
}

/// The boundary that is kept of the edges from `i` on: the splice of edge `i`, then that
/// of the next edge that it has not consumed, and so on to the end, or to the first edge
/// at which the cut is not defined.
pub open spec fn kept_from(edges: Seq<Edge>, w: Wall, i: int) -> Seq<Edge>
    decreases edges.len() - i,
{
    if 0 <= i < edges.len() && defined_at(edges, w, i) {
        proof {
            lemma_splice_advances(edges, w, i);
        }
        splice_at(edges, w, i).kept + kept_from(edges, w, splice_at(edges, w, i).next)
    } else {
        Seq::empty()
    }
}

/// The boundaries that the wall severs while the edges from `i` on are cut, in the order
/// in which the cut comes to them, as far as the cut is defined.
pub open spec fn severed_from(edges: Seq<Edge>, w: Wall, i: int) -> Seq<Seq<Edge>>
    decreases edges.len() - i,
{
    if 0 <= i < edges.len() && defined_at(edges, w, i) {
        proof {
            lemma_splice_advances(edges, w, i);
        }
        let s = splice_at(edges, w, i);
        let later = severed_from(edges, w, s.next);
        match s.severed {
            Some(other) => seq![other] + later,
            None => later,
        }
    } else {
        Seq::empty()
    }
}

/// The region within `edges`, given the balls to choose from.
pub open spec fn region_within(edges: Seq<Edge>, balls: Seq<Ball>) -> Region {
    Region { balls: enclosed(edges, balls), edges }
}

/// The regions within those of `loops` that hold at least one of `balls`, in their order.
pub open spec fn peopled(loops: Seq<Seq<Edge>>, balls: Seq<Ball>) -> Seq<Region>
    decreases loops.len(),
{
    if loops.len() == 0 {
        Seq::empty()
    } else {
        let before = peopled(loops.drop_last(), balls);
        let r = region_within(loops.last(), balls);
        if r.balls.len() > 0 {
            before.push(r)
        } else {
            before
        }
    }
}

impl Region {
    /// The cut of `w` into this region's boundary is defined at every edge it reaches.
    pub open spec fn accepts(self, w: Wall) -> bool {
        accepts_from(self.edges, w, 0)
    }

    /// The regions that take the place of this one when `w` is cut in: first the region
    /// within the kept boundary, then the regions within the severed boundaries that hold
    /// a ball. Each region gets the balls of this one that its boundary holds.
    pub open spec fn divided(self, w: Wall) -> Seq<Region> {
        seq![region_within(kept_from(self.edges, w, 0), self.balls)] + peopled(
            severed_from(self.edges, w, 0),
            self.balls,
        )
    }
}

impl LiveArea {
    /// Whether this region's boundary holds `ball`.
    pub fn ball_is_inside(&self, ball: Ball) -> (r: bool)
        ensures
            r == encloses(self@.edges, ball),
    {
        boundary_holds(&self.edges, ball)
    }

    /// Whether the wall with these corners, clockwise from the top left, can be cut into
    /// this region.
    pub fn accepts_wall(
        &self,
        top_left: Point,
        top_right: Point,
        bottom_right: Point,
        bottom_left: Point,
    ) -> (r: bool)
        ensures
            r == self@.accepts(Wall { top_left, top_right, bottom_right, bottom_left }),
    {
        let wall = Wall::new(top_left, top_right, bottom_right, bottom_left);
        let n: usize = self.edges.len();
        let mut i: usize = 0;
        while i < n
            invariant
                wall == (Wall { top_left, top_right, bottom_right, bottom_left }),
                n == self.edges@.len(),
                i <= n,
                accepts_from(self.edges@, wall, 0) == accepts_from(self.edges@, wall, i as int),
            decreases n - i,
        {
            proof {
                lemma_splice_advances(self.edges@, wall, i as int);
            }
            match splice(&self.edges, &wall, i) {
                Some(cut) => {
                    i = cut.next;
                },
                None => {
                    return false;
                },
            }
        }
        true
    }

    /// Cuts the wall with these corners, clockwise from the top left, into this region.
    /// The region that keeps the first edge comes first; a region that the wall severs
    /// follows only where it holds a ball. Every ball that comes out lies within the
    /// boundary of its region, and of a sound boundary and a proper wall come loops.
    pub fn add_wall(
        self,
        top_left: Point,
        top_right: Point,
        bottom_right: Point,
        bottom_left: Point,
    ) -> (out: Vec<LiveArea>)
        requires
            self@.accepts(Wall { top_left, top_right, bottom_right, bottom_left }),
        ensures
            regions(out@) == self@.divided(
                Wall { top_left, top_right, bottom_right, bottom_left },
            ),
            out@.len() >= 1,
            forall|k: int, b: int|
                0 <= k < out@.len() && 0 <= b < out@[k].balls@.len() ==> encloses(
                    out@[k].edges@,
                    #[trigger] out@[k].balls@[b],
                ) && self.balls@.contains(out@[k].balls@[b]),
            sound(self.edges@) && (Wall { top_left, top_right, bottom_right, bottom_left }).proper()
                ==> forall|k: int| 0 <= k < out@.len() ==> closed(#[trigger] out@[k].edges@),
    {
        let wall = Wall::new(top_left, top_right, bottom_right, bottom_left);
        let n: usize = self.edges.len();
        let mut current: Vec<Edge> = Vec::new();
        let mut out: Vec<LiveArea> = Vec::new();
        let ghost mut loops: Seq<Seq<Edge>> = Seq::empty();
        let mut i: usize = 0;
        while i < n
            invariant
                n == self.edges@.len(),
                i <= n,
                accepts_from(self.edges@, wall, i as int),
                current@ + kept_from(self.edges@, wall, i as int) == kept_from(
                    self.edges@,
                    wall,
                    0,
                ),
                loops + severed_from(self.edges@, wall, i as int) == severed_from(
                    self.edges@,
                    wall,
                    0,
                ),
                regions(out@) == peopled(loops, self.balls@),
            decreases n - i,
        {
            proof {
                lemma_splice_advances(self.edges@, wall, i as int);
            }
            let ghost s = splice_at(self.edges@, wall, i as int);
            let ghost before = current@;
            let ghost loops_before = loops;
            let cut = splice(&self.edges, &wall, i).unwrap();
            let mut pieces: Vec<Edge> = cut.kept;
            current.append(&mut pieces);
            proof {
                assert(current@ + kept_from(self.edges@, wall, s.next) =~= before + (s.kept
                    + kept_from(self.edges@, wall, s.next)));
            }
            match cut.severed {
                Some(other) => {
                    let held: Vec<Ball> = balls_held(&other, &self.balls);
                    proof {
                        loops = loops.push(other@);
                        assert(loops.drop_last() =~= loops_before);
                        assert(loops + severed_from(self.edges@, wall, s.next) =~= loops_before
                            + (seq![other@] + severed_from(self.edges@, wall, s.next)));
                    }
                    if held.len() > 0 {
                        let ghost out_before = out@;
                        out.push(LiveArea { balls: held, edges: other });
                        proof {
                            assert(regions(out@) =~= regions(out_before).push(
                                region_within(other@, self.balls@),
                            ));
                        }
                    }
                },
                None => {},
            }
            i = cut.next;
        }
        let held: Vec<Ball> = balls_held(&current, &self.balls);
        proof {
            assert(current@ =~= kept_from(self.edges@, wall, 0));
            assert(loops =~= severed_from(self.edges@, wall, 0));
        }
        let ghost rest = out@;
        out.insert(0, LiveArea { balls: held, edges: current });
        proof {
            assert(regions(out@) =~= seq![region_within(current@, self.balls@)] + regions(rest));
            let made = self@.divided(wall);
            lemma_regions_hold_their_balls(self@, wall);
            assert forall|k: int, b: int|
                0 <= k < out@.len() && 0 <= b < out@[k].balls@.len() implies encloses(
                out@[k].edges@,
                #[trigger] out@[k].balls@[b],
            ) && self.balls@.contains(out@[k].balls@[b]) by {
                assert(out@[k]@ == made[k]);
                assert(encloses(made[k].edges, made[k].balls[b]));
            }
            if sound(self.edges@) && wall.proper() {
                lemma_cut_yields_loops(self@, wall);
                assert forall|k: int| 0 <= k < out@.len() implies closed(
                    #[trigger] out@[k].edges@,
                ) by {
                    assert(out@[k]@ == made[k]);
                    assert(closed(made[k].edges));
                }
            }
        }
        out
    }
}

} // verus!
