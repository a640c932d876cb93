//! Basic value types shared by every module: grid positions and the kinds of
//! resources and robots.

use vstd::prelude::*;

verus! {

/// A cell of the grid, by column `x` and row `y`.
#[derive(Clone, Copy, PartialEq, Eq, Structural, Debug, Hash)]
pub struct Pos {
    pub x: i32,
    pub y: i32,
}

/// Absolute value on mathematical integers.
pub open spec fn abs(v: int) -> int {
    if v < 0 {
        -v
    } else {
        v
    }
}

/// Manhattan distance between two positions.
pub open spec fn dist(a: Pos, b: Pos) -> int {
    abs(a.x - b.x) + abs(a.y - b.y)
}

/// Two cells are adjacent when they share a side.
pub open spec fn adjacent(a: Pos, b: Pos) -> bool {
    dist(a, b) == 1
}

/// The four unit moves, in the order in which neighbours are listed:
/// right, left, down, up.
pub open spec fn unit_dir(k: int) -> (i32, i32) {
    if k == 0 {
        (1i32, 0i32)
    } else if k == 1 {
        (-1i32, 0i32)
    } else if k == 2 {
        (0i32, 1i32)
    } else {
        (0i32, -1i32)
    }
}

/// `d` is one of the four unit moves.
pub open spec fn is_unit_dir(d: (i32, i32)) -> bool {
    d == (1i32, 0i32) || d == (-1i32, 0i32) || d == (0i32, 1i32) || d == (0i32, -1i32)
}

/// `p` moved by `d`, computed on mathematical integers.
pub open spec fn shifted(p: Pos, d: (i32, i32)) -> Pos {
    Pos { x: (p.x + d.0) as i32, y: (p.y + d.1) as i32 }
}

/// The `k`-th neighbour of `p` (for `0 <= k < 4`).
pub open spec fn neighbor(p: Pos, k: int) -> Pos {
    shifted(p, unit_dir(k))
}

/// No coordinate of `p` is at an end of the `i32` range, so all four
/// neighbours of `p` can be computed.
pub open spec fn has_neighbors(p: Pos) -> bool {
    i32::MIN < p.x < i32::MAX && i32::MIN < p.y < i32::MAX
}

/// The kinds of resource found on the map.
#[derive(Clone, Copy, PartialEq, Eq, Structural, Debug)]
pub enum ResourceKind {
    Energy,
    Crystal,
}

/// The kinds of robot.
#[derive(Clone, Copy, PartialEq, Eq, Structural, Debug)]
pub enum RobotKind {
    Scout,
    Collector,
}

impl Pos {
    pub fn new(x: i32, y: i32) -> (p: Pos)
        ensures
            p.x == x,
            p.y == y,
    {
        Pos { x, y }
    }

    /// Manhattan distance to `other`.
    pub fn manhattan(self, other: Pos) -> (d: u64)
        ensures
            d == dist(self, other),
    {
        let dx: i64 = self.x as i64 - other.x as i64;
        let dy: i64 = self.y as i64 - other.y as i64;
        let ax: u64 = if dx < 0 {
            (-dx) as u64
        } else {
            dx as u64
        };
        let ay: u64 = if dy < 0 {
            (-dy) as u64
        } else {
            dy as u64
        };
        ax + ay
    }

    /// The four side neighbours: right, left, down, up.
    pub fn neighbors4(self) -> (n: [Pos; 4])
        requires
            has_neighbors(self),
        ensures
            forall|k: int| 0 <= k < 4 ==> #[trigger] n@[k] == neighbor(self, k),
    {
        [
            Pos { x: self.x + 1, y: self.y },
            Pos { x: self.x - 1, y: self.y },
            Pos { x: self.x, y: self.y + 1 },
            Pos { x: self.x, y: self.y - 1 },
        ]
    }
}

/// The cells adjacent to `p` are exactly its four listed neighbours.
pub proof fn lemma_adjacent_iff_neighbor(p: Pos, q: Pos)
    requires
        has_neighbors(p),
    ensures
        adjacent(p, q) <==> exists|k: int| 0 <= k < 4 && neighbor(p, k) == q,
{
    if adjacent(p, q) {
        if q.x == p.x + 1 {
            assert(neighbor(p, 0) == q);
        } else if q.x == p.x - 1 {
            assert(neighbor(p, 1) == q);
        } else if q.y == p.y + 1 {
            assert(neighbor(p, 2) == q);
        } else {
            assert(neighbor(p, 3) == q);
        }
    }
    if exists|k: int| 0 <= k < 4 && neighbor(p, k) == q {
        let k = choose|k: int| 0 <= k < 4 && neighbor(p, k) == q;
        assert(0 <= k < 4);
    }
}

} // verus!
