//! The four directions an edge of a rectilinear boundary can face.

use vstd::prelude::*;

verus! {

/// The side of an edge on which the playable region lies, as seen on a screen whose `y`
/// axis points down. Walking a boundary with the region on the right, the facings follow
/// each other in the order `Down`, `Left`, `Up`, `Right`: one quarter turn clockwise each.
#[derive(Clone, Copy, Debug, PartialEq, Eq, Structural)]
pub enum Facing {
    Down,
    Left,
    Up,
    Right,
}

impl Facing {
    /// The place of a facing in the clockwise order, starting with `Down` at 0.
    pub open spec fn index(self) -> int {
        match self {
            Facing::Down => 0,
            Facing::Left => 1,
            Facing::Up => 2,
            Facing::Right => 3,
        }
    }

    /// The facing at place `k` of the clockwise order, counted round and round.
    pub open spec fn at(k: int) -> Facing {
        let r = k % 4;
        if r == 0 {
            Facing::Down
        } else if r == 1 {
            Facing::Left
        } else if r == 2 {
            Facing::Up
        } else {
            Facing::Right
        }
    }

    /// This facing after `quarters` quarter turns clockwise (anticlockwise where negative).
    pub open spec fn turned(self, quarters: int) -> Facing {
        Facing::at(self.index() + quarters)
    }

    /// The unit vector that points from an edge with this facing into the region.
    pub open spec fn unit(self) -> (int, int) {
        match self {
            Facing::Down => (0, 1),
            Facing::Left => (-1, 0),
            Facing::Up => (0, -1),
            Facing::Right => (1, 0),
        }
    }

    /// One quarter turn clockwise.
    pub fn clockwise(self) -> (r: Facing)
        ensures
            r == self.turned(1),
    {
        match self {
            Facing::Down => Facing::Left,
            Facing::Left => Facing::Up,
            Facing::Up => Facing::Right,
            Facing::Right => Facing::Down,
        }
    }

    /// One quarter turn anticlockwise.
    pub fn anticlockwise(self) -> (r: Facing)
        ensures
            r == self.turned(-1),
    {
        match self {
            Facing::Down => Facing::Right,
            Facing::Right => Facing::Up,
            Facing::Up => Facing::Left,
            Facing::Left => Facing::Down,
        }
    }

    /// The facing half a turn away.
    pub fn opposite(self) -> (r: Facing)
        ensures
            r == self.turned(2),
    {
        match self {
            Facing::Down => Facing::Up,
            Facing::Up => Facing::Down,
            Facing::Left => Facing::Right,
            Facing::Right => Facing::Left,
        }
    }

    /// The place of this facing in the clockwise order; it is also the number of the wall
    /// corner that a walk along an edge with this facing meets first.
    pub fn ordinal(self) -> (k: usize)
        ensures
            k == self.index(),
    {
        match self {
            Facing::Down => 0,
            Facing::Left => 1,
            Facing::Up => 2,
            Facing::Right => 3,
        }
    }

    /// The unit normal of an edge with this facing, as a pair of grid steps.
    pub fn normal(self) -> (v: (i16, i16))
        ensures
            (v.0 as int, v.1 as int) == self.unit(),
    {
        match self {
            Facing::Down => (0, 1),
            Facing::Left => (-1, 0),
            Facing::Up => (0, -1),
            Facing::Right => (1, 0),
        }
    }

    /// Four quarter turns make a full turn, and turns add up.
    pub proof fn lemma_turns_compose(self, j: int, k: int)
        ensures
            self.turned(j).turned(k) == self.turned(j + k),
            self.turned(0) == self,
            self.turned(k + 4) == self.turned(k),
            Facing::at(self.index()) == self,
    {
    }

    /// A quarter turn clockwise sends the normal `(x, y)` to `(-y, x)`; half a turn negates it.
    pub proof fn lemma_normal_turns(self)
        ensures
            self.turned(1).unit() == (-self.unit().1, self.unit().0),
            self.turned(2).unit() == (-self.unit().0, -self.unit().1),
            self.turned(-1).unit() == (self.unit().1, -self.unit().0),
    {
    }
}

} // verus!
