//! What the display shows for each cell, and the counts in its title.

use vstd::prelude::*;

use crate::map::{RobotView, Tile, World};
use crate::types::{Pos, ResourceKind, RobotKind};

verus! {

/// The symbol drawn for a cell.
#[derive(Clone, Copy, PartialEq, Eq, Structural, Debug)]
pub enum Glyph {
    Scout,
    Collector,
    Energy,
    Crystal,
    Obstacle,
    Base,
    Empty,
}

/// Robot `j` is the last robot in the list that stands on `p`.
pub open spec fn last_robot_at(robots: Seq<RobotView>, p: Pos, j: int) -> bool {
    &&& 0 <= j < robots.len()
    &&& robots[j].pos == p
    &&& forall|k: int| j < k < robots.len() ==> #[trigger] robots[k].pos != p
}

/// The glyph of a cell: robots are drawn over everything (the last one
/// listed wins), then resources, then the terrain.
pub open spec fn glyph_spec(w: World, p: Pos) -> Glyph {
    if exists|j: int| #[trigger] last_robot_at(w.robots@, p, j) {
        let j = choose|j: int| #[trigger] last_robot_at(w.robots@, p, j);
        match w.robots@[j].kind {
            RobotKind::Scout => Glyph::Scout,
            RobotKind::Collector => Glyph::Collector,
        }
    } else if w.resources@.contains_key(p) {
        match w.resources@[p].kind {
            ResourceKind::Energy => Glyph::Energy,
            ResourceKind::Crystal => Glyph::Crystal,
        }
    } else {
        match w.tile_at(p) {
            Tile::Obstacle => Glyph::Obstacle,
            Tile::Base => Glyph::Base,
            Tile::Empty => Glyph::Empty,
        }
    }
}

/// Number of scouts in a list of robots.
pub open spec fn scouts_in(robots: Seq<RobotView>) -> nat
    decreases robots.len(),
{
    if robots.len() == 0 {
        0
    } else {
        scouts_in(robots.drop_last()) + if robots.last().kind == RobotKind::Scout {
            1nat
        } else {
            0nat
        }
    }
}

proof fn lemma_scouts_in_bound(robots: Seq<RobotView>)
    ensures
        scouts_in(robots) <= robots.len(),
    decreases robots.len(),
{
    if robots.len() > 0 {
        lemma_scouts_in_bound(robots.drop_last());
    }
}

impl World {
    /// The glyph drawn for cell `p`.
    pub fn glyph_at(&self, p: Pos) -> (g: Glyph)
        requires
            self.wf(),
            self.in_bounds_spec(p),
        ensures
            g == glyph_spec(*self, p),
    {
        let n = self.robots.len();
        let mut i: usize = n;
        while i > 0
            invariant
                n == self.robots@.len(),
                i <= n,
                forall|k: int| i <= k < n ==> #[trigger] self.robots@[k].pos != p,
            decreases i,
        {
            let r = self.robots[i - 1];
            if r.pos == p {
                proof {
                    let j = (i - 1) as int;
                    assert(last_robot_at(self.robots@, p, j));
                    assert forall|j2: int| #[trigger] last_robot_at(self.robots@, p, j2) implies j2 == j by {
                        if j2 < j {
                            assert(self.robots@[j].pos != p);
                        }
                    }
                }
                return match r.kind {
                    RobotKind::Scout => Glyph::Scout,
                    RobotKind::Collector => Glyph::Collector,
                };
            }
            i = i - 1;
        }
        match self.resources.find(p) {
            Some(idx) => {
                let res = self.resources.value_at(idx);
                match res.kind {
                    ResourceKind::Energy => Glyph::Energy,
                    ResourceKind::Crystal => Glyph::Crystal,
                }
            },
            None => {
                proof {
                    self.lemma_in_bounds_index(p);
                }
                match self.tile(p) {
                    Tile::Obstacle => Glyph::Obstacle,
                    Tile::Base => Glyph::Base,
                    Tile::Empty => Glyph::Empty,
                }
            },
        }
    }

    /// Number of scouts among the robots.
    pub fn scout_count(&self) -> (c: usize)
        ensures
            c == scouts_in(self.robots@),
    {
        let n = self.robots.len();
        let mut c: usize = 0;
        let mut i: usize = 0;
        while i < n
            invariant
                n == self.robots@.len(),
                i <= n,
                c == scouts_in(self.robots@.take(i as int)),
            decreases n - i,
        {
            proof {
                assert(self.robots@.take(i + 1).drop_last() =~= self.robots@.take(i as int));
                lemma_scouts_in_bound(self.robots@.take(i as int));
            }
            if self.robots[i].kind == RobotKind::Scout {
                c = c + 1;
            }
            i = i + 1;
        }
        assert(self.robots@.take(n as int) =~= self.robots@);
        c
    }
}

} // verus!
