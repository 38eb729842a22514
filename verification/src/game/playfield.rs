//! The playfield: the regions into which walls have divided it.

use vstd::prelude::*;
use crate::game::area::{regions, LiveArea, Region};
use crate::game::ball::Ball;
use crate::game::bar::{bar_at, lemma_bar_keeps_shape, lemma_bar_yields_regions};
use crate::game::boundary::{is_sound, joined, share, simple, sound, turns_at};
use crate::game::bridge::{bridge_at, lemma_bridge_keeps_shape, lemma_bridge_yields_regions};
use crate::game::edge::Edge;
use crate::game::facing::Facing;
use crate::game::insertion::{clear_of, lemma_clear_yields_the_region};
use crate::game::notch::{lemma_notch_keeps_shape, lemma_notch_yields_one_region, notch_at};
use crate::game::placement::{placed, placement, Placement};
use crate::game::point::Point;
use crate::game::shelf::{lemma_shelf_keeps_shape, lemma_shelf_yields_one_region, shelf_at};
use crate::game::wall::{rim, Wall};

verus! {

/// The regions of a playfield. Walls only ever divide them: no two are joined again.
#[derive(Debug, PartialEq)]
pub struct Playfield {
    pub areas: Vec<LiveArea>,
}

impl View for Playfield {
    type V = Seq<Region>;

    open spec fn view(&self) -> Seq<Region> {
        regions(self.areas@)
    }
}

/// The rim of a proper rectangle is a sound boundary that does not touch itself.
pub proof fn lemma_rim_is_sound(w: Wall)
    requires
        w.proper(),
    ensures
        sound(rim(w)),
        simple(rim(w)),
{
    let r = rim(w);
    assert forall|i: int| 0 <= i < r.len() - 1 implies #[trigger] joined(r, i) by {}
    assert forall|i: int| 0 <= i < r.len() implies #[trigger] r[i].aligned() by {}
    assert forall|i: int| 0 <= i < r.len() implies #[trigger] turns_at(r, i) by {}
    assert forall|i: int, j: int, p: Point|
        0 <= i < j < r.len() && #[trigger] share(r, i, j, p) implies (j == i + 1 && p == r[i].b)
        || (i == 0 && j == r.len() - 1 && p == r[0].a) by {}
}

/// Every region has a sound boundary that does not touch itself.
pub open spec fn tidy(field: Seq<Region>) -> bool {
    forall|r: int| 0 <= r < field.len() ==> sound(#[trigger] field[r].edges) && simple(
        field[r].edges,
    )
}

/// The field after `w` is cut into region `r`: the regions that the cut yields take the
/// place of the region.
pub open spec fn with_wall(field: Seq<Region>, r: int, w: Wall) -> Seq<Region> {
    field.subrange(0, r) + field[r].divided(w) + field.subrange(r + 1, field.len() as int)
}

/// A proper wall that is placed in a region with a sound boundary is accepted, and the
/// cut yields one region or two.
pub proof fn lemma_placed_wall_is_accepted(area: Region, w: Wall)
    requires
        sound(area.edges),
        w.proper(),
        placed(area.edges, w),
    ensures
        area.accepts(w),
        1 <= area.divided(w).len() <= 2,
{
    let edges = area.edges;
    if clear_of(edges, w) {
        lemma_clear_yields_the_region(area, w);
    } else if exists|i: int| notch_at(edges, w, i) {
        let i = choose|i: int| notch_at(edges, w, i);
        lemma_notch_yields_one_region(area, w, i);
    } else if exists|i: int| shelf_at(edges, w, i) {
        let i = choose|i: int| shelf_at(edges, w, i);
        lemma_shelf_yields_one_region(area, w, i);
    } else if exists|i: int, k: int| bridge_at(edges, w, i, k) {
        let (i, k) = choose|i: int, k: int| bridge_at(edges, w, i, k);
        lemma_bridge_yields_regions(area, w, i, k);
    } else {
        let (i, k) = choose|i: int, k: int| bar_at(edges, w, i, k);
        lemma_bar_yields_regions(area, w, i, k);
    }
}

/// A proper wall that is placed in a region with a sound boundary that does not touch
/// itself is accepted, and the boundaries of the regions that come out are sound and do
/// not touch themselves.
pub proof fn lemma_placed_wall_keeps_shape(area: Region, w: Wall)
    requires
        sound(area.edges),
        simple(area.edges),
        w.proper(),
        placed(area.edges, w),
    ensures
        area.accepts(w),
        1 <= area.divided(w).len() <= 2,
        forall|k: int|
            0 <= k < area.divided(w).len() ==> sound(#[trigger] area.divided(w)[k].edges)
                && simple(area.divided(w)[k].edges),
{
    let edges = area.edges;
    if clear_of(edges, w) {
        lemma_clear_yields_the_region(area, w);
    } else if exists|i: int| notch_at(edges, w, i) {
        let i = choose|i: int| notch_at(edges, w, i);
        lemma_notch_yields_one_region(area, w, i);
        lemma_notch_keeps_shape(edges, w, i);
    } else if exists|i: int| shelf_at(edges, w, i) {
        let i = choose|i: int| shelf_at(edges, w, i);
        lemma_shelf_yields_one_region(area, w, i);
        lemma_shelf_keeps_shape(edges, w, i);
    } else if exists|i: int, k: int| bridge_at(edges, w, i, k) {
        let (i, k) = choose|i: int, k: int| bridge_at(edges, w, i, k);
        lemma_bridge_yields_regions(area, w, i, k);
        lemma_bridge_keeps_shape(edges, w, i, k);
    } else {
        let (i, k) = choose|i: int, k: int| bar_at(edges, w, i, k);
        lemma_bar_yields_regions(area, w, i, k);
        lemma_bar_keeps_shape(edges, w, i, k);
    }
}

/// A tidy field stays tidy when a proper wall is cut into one of its regions in which it
/// is placed: whatever walls are placed one after another in a rectangle, every region
/// keeps a sound boundary that does not touch itself.
pub proof fn lemma_placed_wall_keeps_field(field: Seq<Region>, r: int, w: Wall)
    requires
        tidy(field),
        0 <= r < field.len(),
        w.proper(),
        placed(field[r].edges, w),
    ensures
        field[r].accepts(w),
        tidy(with_wall(field, r, w)),
{
    let made = field[r].divided(w);
    let after = with_wall(field, r, w);
    lemma_placed_wall_keeps_shape(field[r], w);
    assert forall|q: int| 0 <= q < after.len() implies sound(#[trigger] after[q].edges)
        && simple(after[q].edges) by {
        if q < r {
            assert(after[q] == field[q]);
        } else if q < r + made.len() {
            assert(after[q] == made[q - r]);
        } else {
            assert(after[q] == field[q - made.len() + 1]);
        }
    }
}

impl Playfield {
    /// A playfield of one region: the rectangle with these corners, clockwise from the
    /// top left, with all of `balls` in it. With proper corners the field is tidy.
    pub fn new(
        top_left: Point,
        top_right: Point,
        bottom_right: Point,
        bottom_left: Point,
        balls: Vec<Ball>,
    ) -> (field: Playfield)
        ensures
            field@ == seq![
                Region {
                    balls: balls@,
                    edges: rim(Wall { top_left, top_right, bottom_right, bottom_left }),
                },
            ],
            (Wall { top_left, top_right, bottom_right, bottom_left }).proper() ==> tidy(field@),
    {
        let mut edges: Vec<Edge> = Vec::new();
        edges.push(Edge { a: top_left, b: top_right, n: Facing::Down });
        edges.push(Edge { a: top_right, b: bottom_right, n: Facing::Left });
        edges.push(Edge { a: bottom_right, b: bottom_left, n: Facing::Up });
        edges.push(Edge { a: bottom_left, b: top_left, n: Facing::Right });
        let mut areas: Vec<LiveArea> = Vec::new();
        areas.push(LiveArea { balls, edges });
        let field = Playfield { areas };
        proof {
            let w = Wall { top_left, top_right, bottom_right, bottom_left };
            assert(edges@ =~= rim(w));
            assert(field@ =~= seq![Region { balls: balls@, edges: rim(w) }]);
            if w.proper() {
                lemma_rim_is_sound(w);
            }
        }
        field
    }

    /// Whether region `region` exists and the wall with these corners, clockwise from the
    /// top left, can be cut into it.
    pub fn accepts_wall(
        &self,
        region: usize,
        top_left: Point,
        top_right: Point,
        bottom_right: Point,
        bottom_left: Point,
    ) -> (r: bool)
        ensures
            r == (region < self@.len() && self@[region as int].accepts(
                Wall { top_left, top_right, bottom_right, bottom_left },
            )),
    {
        region < self.areas.len() && self.areas[region].accepts_wall(
            top_left,
            top_right,
            bottom_right,
            bottom_left,
        )
    }

    /// Cuts the wall with these corners, clockwise from the top left, into region
    /// `region`: the regions that the cut yields take its place, and the others stay as
    /// and where they are. A tidy field stays tidy under a proper wall that is placed in
    /// the region.
    pub fn insert_wall(
        &mut self,
        region: usize,
        top_left: Point,
        top_right: Point,
        bottom_right: Point,
        bottom_left: Point,
    )
        requires
            region < old(self)@.len(),
            old(self)@[region as int].accepts(
                Wall { top_left, top_right, bottom_right, bottom_left },
            ),
        ensures
            final(self)@ == with_wall(
                old(self)@,
                region as int,
                Wall { top_left, top_right, bottom_right, bottom_left },
            ),
            tidy(old(self)@) && (Wall {
                top_left,
                top_right,
                bottom_right,
                bottom_left,
            }).proper() && placed(
                old(self)@[region as int].edges,
                Wall { top_left, top_right, bottom_right, bottom_left },
            ) ==> tidy(final(self)@),
    {
        let ghost before = self.areas@;
        let mut tail: Vec<LiveArea> = self.areas.split_off(region);
        let area: LiveArea = tail.remove(0);
        let mut parts: Vec<LiveArea> = area.add_wall(
            top_left,
            top_right,
            bottom_right,
            bottom_left,
        );
        let ghost made = parts@;
        self.areas.append(&mut parts);
        self.areas.append(&mut tail);
        proof {
            let w = Wall { top_left, top_right, bottom_right, bottom_left };
            let n = before.len() as int;
            assert(self.areas@ =~= before.subrange(0, region as int) + made + before.subrange(
                region as int + 1,
                n,
            ));
            assert(regions(self.areas@) =~= regions(before).subrange(0, region as int)
                + regions(made) + regions(before).subrange(region as int + 1, n));
            if tidy(regions(before)) && w.proper() && placed(
                regions(before)[region as int].edges,
                w,
            ) {
                lemma_placed_wall_keeps_field(regions(before), region as int, w);
            }
        }
    }

    /// Cuts the wall with these corners, clockwise from the top left, into region
    /// `region`, where there is such a region, its boundary is sound, and the wall is
    /// proper and placed in it; else the field stays as it is. Says whether the wall was
    /// cut in. A tidy field stays tidy.
    pub fn place_wall(
        &mut self,
        region: usize,
        top_left: Point,
        top_right: Point,
        bottom_right: Point,
        bottom_left: Point,
    ) -> (cut: bool)
        ensures
            cut == (region < old(self)@.len() && (Wall {
                top_left,
                top_right,
                bottom_right,
                bottom_left,
            }).proper() && sound(old(self)@[region as int].edges) && placed(
                old(self)@[region as int].edges,
                Wall { top_left, top_right, bottom_right, bottom_left },
            )),
            cut ==> final(self)@ == with_wall(
                old(self)@,
                region as int,
                Wall { top_left, top_right, bottom_right, bottom_left },
            ),
            !cut ==> final(self)@ == old(self)@,
            tidy(old(self)@) ==> tidy(final(self)@),
    {
        let wall = Wall::new(top_left, top_right, bottom_right, bottom_left);
        if region >= self.areas.len() || !wall.is_proper() {
            return false;
        }
        if !is_sound(&self.areas[region].edges) {
            return false;
        }
        let found: Placement = placement(&self.areas[region].edges, &wall);
        match found {
            Placement::Astray => false,
            _ => {
                proof {
                    assert(placed(self@[region as int].edges, wall));
                    lemma_placed_wall_is_accepted(self@[region as int], wall);
                }
                self.insert_wall(region, top_left, top_right, bottom_right, bottom_left);
                true
            },
        }
    }
}

} // verus!
