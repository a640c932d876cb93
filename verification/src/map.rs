//! The authoritative state of the world: terrain, live resources, robots and
//! the totals collected at the base.

use vstd::prelude::*;

use rand::rngs::ThreadRng;

use crate::posmap::PosMap;
use crate::rng::random_in;
use crate::types::{Pos, ResourceKind, RobotKind};

verus! {

#[derive(Clone, Copy, PartialEq, Eq, Structural, Debug)]
pub enum Tile {
    Empty,
    Obstacle,
    Base,
}

/// A resource deposit and the units left in it.
#[derive(Clone, Copy, PartialEq, Eq, Structural, Debug)]
pub struct Resource {
    pub kind: ResourceKind,
    pub remaining: u32,
}

/// What the world records of a robot, for display.
#[derive(Clone, Copy, Debug)]
pub struct RobotView {
    pub kind: RobotKind,
    pub pos: Pos,
    pub carrying: Option<ResourceKind>,
}

/// The grid is stored row by row in `tiles`: the cell `(x, y)` is at index
/// `y * width + x`.
#[derive(Clone)]
pub struct World {
    pub width: i32,
    pub height: i32,
    pub tiles: Vec<Tile>,
    pub resources: PosMap<Resource>,
    pub base: Pos,
    pub robots: Vec<RobotView>,
    pub collected_energy: u32,
    pub collected_crystals: u32,
}

/// The tile of a freshly generated map at `p`, for a base at `base` and a
/// noise sample `blocked` at `p`: the base itself, then a clear 3 by 3 area
/// around it, elsewhere an obstacle where the noise says so.
pub open spec fn terrain_tile(p: Pos, base: Pos, blocked: bool) -> Tile {
    if p == base {
        Tile::Base
    } else if -1 <= p.x - base.x <= 1 && -1 <= p.y - base.y <= 1 {
        Tile::Empty
    } else if blocked {
        Tile::Obstacle
    } else {
        Tile::Empty
    }
}

/// The cells that receive a deposit when `log` is drawn on `w`, in order:
/// each drawn cell where a deposit may go and that has not received one
/// yet, while fewer than `count` are placed.
pub open spec fn scatter_picks(w: World, count: int, log: Seq<Pos>) -> Seq<Pos>
    decreases log.len(),
{
    if log.len() == 0 {
        Seq::<Pos>::empty()
    } else {
        let prev = scatter_picks(w, count, log.drop_last());
        let p = log.last();
        if prev.len() < count && w.can_place_spec(p) && !prev.contains(p) {
            prev.push(p)
        } else {
            prev
        }
    }
}

/// `0 <= x < w` and `0 <= y < h` place `y * w + x` inside `0 .. w * h`.
pub proof fn lemma_index_in_range(x: int, y: int, w: int, h: int)
    requires
        0 <= x < w,
        0 <= y < h,
    ensures
        0 <= y * w + x < w * h,
        y * w <= w * h - w,
{
    assert(0 <= y * w) by (nonlinear_arith)
        requires
            0 <= y,
            0 <= w,
    ;
    assert(y * w <= (h - 1) * w) by (nonlinear_arith)
        requires
            y <= h - 1,
            0 <= w,
    ;
    assert((h - 1) * w == h * w - w) by (nonlinear_arith);
    assert(h * w == w * h) by (nonlinear_arith);
}

/// Row-major indices of distinct cells differ.
pub proof fn lemma_index_injective(x1: int, y1: int, x2: int, y2: int, w: int)
    requires
        0 <= x1 < w,
        0 <= x2 < w,
        y1 * w + x1 == y2 * w + x2,
    ensures
        x1 == x2,
        y1 == y2,
{
    if y1 < y2 {
        assert(y1 * w + w <= y2 * w) by (nonlinear_arith)
            requires
                y1 < y2,
                0 <= w,
        ;
    } else if y2 < y1 {
        assert(y2 * w + w <= y1 * w) by (nonlinear_arith)
            requires
                y2 < y1,
                0 <= w,
        ;
    }
}

impl World {
    /// Well-formed: the tile vector covers the grid exactly and each resource
    /// position occurs once.
    pub open spec fn wf(&self) -> bool {
        &&& 0 <= self.width
        &&& 0 <= self.height
        &&& self.width * self.height <= i32::MAX
        &&& self.tiles@.len() == self.width * self.height
        &&& self.resources.wf()
    }

    pub open spec fn in_bounds_spec(&self, p: Pos) -> bool {
        0 <= p.x < self.width && 0 <= p.y < self.height
    }

    /// Row-major index of `p`.
    pub open spec fn index_of(&self, p: Pos) -> int {
        p.y * self.width + p.x
    }

    /// `tile` can be called at `p`: the index is computed without overflow and
    /// falls inside the tile vector.
    pub open spec fn tile_index_ok(&self, p: Pos) -> bool {
        &&& i32::MIN <= p.y * self.width <= i32::MAX
        &&& 0 <= self.index_of(p) < self.tiles@.len()
    }

    /// The tile stored for `p`.
    pub open spec fn tile_at(&self, p: Pos) -> Tile {
        self.tiles@[self.index_of(p)]
    }

    /// A real obstacle: off the map, or an obstacle tile.
    pub open spec fn obstacle_at(&self, p: Pos) -> bool {
        !self.in_bounds_spec(p) || self.tile_at(p) == Tile::Obstacle
    }

    /// Another robot than `id` stands on `p`.
    pub open spec fn occupied_by_other(&self, p: Pos, id: usize) -> bool {
        exists|j: int| 0 <= j < self.robots@.len() && j != id && #[trigger] self.robots@[j].pos == p
    }

    /// A cell a robot `id` may step on: no real obstacle and no other robot.
    pub open spec fn free_for(&self, p: Pos, id: usize) -> bool {
        !self.obstacle_at(p) && !self.occupied_by_other(p, id)
    }

    /// In-bounds cells have a valid index.
    pub proof fn lemma_in_bounds_index(&self, p: Pos)
        requires
            self.wf(),
            self.in_bounds_spec(p),
        ensures
            self.tile_index_ok(p),
            0 <= self.index_of(p) < self.tiles@.len(),
    {
        lemma_index_in_range(p.x as int, p.y as int, self.width as int, self.height as int);
    }

    /// Distinct in-bounds cells have distinct indices.
    pub proof fn lemma_index_distinct(&self, p: Pos, q: Pos)
        requires
            self.wf(),
            self.in_bounds_spec(p),
            self.in_bounds_spec(q),
            p != q,
        ensures
            self.index_of(p) != self.index_of(q),
    {
        if self.index_of(p) == self.index_of(q) {
            lemma_index_injective(p.x as int, p.y as int, q.x as int, q.y as int, self.width as int);
        }
    }

    fn idx(&self, p: Pos) -> (i: usize)
        requires
            self.wf(),
            self.tile_index_ok(p),
        ensures
            i == self.index_of(p),
    {
        let row: i64 = p.y as i64 * self.width as i64;
        (row + p.x as i64) as usize
    }

    pub fn in_bounds(&self, p: Pos) -> (b: bool)
        ensures
            b == self.in_bounds_spec(p),
    {
        p.x >= 0 && p.y >= 0 && p.x < self.width && p.y < self.height
    }

    pub fn tile(&self, p: Pos) -> (t: Tile)
        requires
            self.wf(),
            self.tile_index_ok(p),
        ensures
            t == self.tile_at(p),
    {
        self.tiles[self.idx(p)]
    }

    /// A real obstacle: off the map or a blocked tile.
    pub fn is_obstacle(&self, p: Pos) -> (b: bool)
        requires
            self.wf(),
        ensures
            b == self.obstacle_at(p),
    {
        if !self.in_bounds(p) {
            return true;
        }
        proof {
            self.lemma_in_bounds_index(p);
        }
        self.tile(p) == Tile::Obstacle
    }

    /// Whether a robot other than `id` stands on `p`.
    pub fn is_occupied(&self, p: Pos, id: usize) -> (b: bool)
        ensures
            b == self.occupied_by_other(p, id),
    {
        let n = self.robots.len();
        let mut j: usize = 0;
        while j < n
            invariant
                n == self.robots@.len(),
                j <= n,
                forall|k: int| 0 <= k < j && k != id ==> self.robots@[k].pos != p,
            decreases n - j,
        {
            if j != id && self.robots[j].pos == p {
                return true;
            }
            j = j + 1;
        }
        false
    }

    /// Adds `amount` units of `kind` to the matching total.
    pub fn record_collected(&mut self, kind: ResourceKind, amount: u32)
        requires
            kind == ResourceKind::Energy ==> old(self).collected_energy + amount <= u32::MAX,
            kind == ResourceKind::Crystal ==> old(self).collected_crystals + amount <= u32::MAX,
        ensures
            kind == ResourceKind::Energy ==> final(self).collected_energy == old(self).collected_energy
                + amount && final(self).collected_crystals == old(self).collected_crystals,
            kind == ResourceKind::Crystal ==> final(self).collected_crystals
                == old(self).collected_crystals + amount && final(self).collected_energy
                == old(self).collected_energy,
            final(self).width == old(self).width,
            final(self).height == old(self).height,
            final(self).tiles == old(self).tiles,
            final(self).resources == old(self).resources,
            final(self).base == old(self).base,
            final(self).robots == old(self).robots,
    {
        match kind {
            ResourceKind::Energy => self.collected_energy = self.collected_energy + amount,
            ResourceKind::Crystal => self.collected_crystals = self.collected_crystals + amount,
        }
    }

    /// A fresh world of `width` by `height` cells with the base at the centre.
    /// `obstacles` gives, row by row, the cells that the terrain noise blocks;
    /// the base and the 3 by 3 area around it are kept clear.
    pub fn with_terrain(width: i32, height: i32, obstacles: &Vec<bool>) -> (w: World)
        requires
            1 <= width,
            1 <= height,
            width * height <= i32::MAX,
            obstacles@.len() == width * height,
        ensures
            w.wf(),
            w.width == width,
            w.height == height,
            w.base.x == width / 2,
            w.base.y == height / 2,
            w.resources@ == Map::<Pos, Resource>::empty(),
            w.robots@.len() == 0,
            w.collected_energy == 0,
            w.collected_crystals == 0,
            forall|p: Pos|
                w.in_bounds_spec(p) ==> #[trigger] w.tile_at(p) == terrain_tile(
                    p,
                    w.base,
                    obstacles@[w.index_of(p)],
                ),
    {
        let n: usize = (width as usize) * (height as usize);
        let mut tiles: Vec<Tile> = Vec::new();
        let mut i: usize = 0;
        while i < n
            invariant
                n == width * height,
                n == obstacles@.len(),
                i <= n,
                tiles@.len() == i,
                forall|j: int|
                    0 <= j < i ==> #[trigger] tiles@[j] == (if obstacles@[j] {
                        Tile::Obstacle
                    } else {
                        Tile::Empty
                    }),
            decreases n - i,
        {
            if obstacles[i] {
                tiles.push(Tile::Obstacle);
            } else {
                tiles.push(Tile::Empty);
            }
            i = i + 1;
        }
        let base = Pos::new(width / 2, height / 2);
        let mut world = World {
            width,
            height,
            tiles,
            resources: PosMap::new(),
            base,
            robots: Vec::new(),
            collected_energy: 0,
            collected_crystals: 0,
        };
        proof {
            assert forall|p: Pos| world.in_bounds_spec(p) implies #[trigger] world.tile_at(p) == (if obstacles@[world.index_of(p)] {
                Tile::Obstacle
            } else {
                Tile::Empty
            }) by {
                world.lemma_in_bounds_index(p);
            }
        }
        // Clear the 3 by 3 area around the base.
        let mut dy: i32 = -1;
        while dy <= 1
            invariant
                -1 <= dy <= 2,
                world.wf(),
                world.width == width,
                world.height == height,
                world.base == base,
                base.x == width / 2 && base.y == height / 2,
                obstacles@.len() == width * height,
                world.resources@ == Map::<Pos, Resource>::empty(),
                world.robots@.len() == 0,
                world.collected_energy == 0,
                world.collected_crystals == 0,
                forall|p: Pos|
                    world.in_bounds_spec(p) ==> #[trigger] world.tile_at(p) == (if -1 <= p.x - base.x
                        <= 1 && -1 <= p.y - base.y < dy {
                        Tile::Empty
                    } else if obstacles@[world.index_of(p)] {
                        Tile::Obstacle
                    } else {
                        Tile::Empty
                    }),
            decreases 2 - dy,
        {
            let mut dx: i32 = -1;
            while dx <= 1
                invariant
                    -1 <= dy <= 1,
                    -1 <= dx <= 2,
                    world.wf(),
                    world.width == width,
                    world.height == height,
                    world.base == base,
                    base.x == width / 2 && base.y == height / 2,
                    obstacles@.len() == width * height,
                    world.resources@ == Map::<Pos, Resource>::empty(),
                    world.robots@.len() == 0,
                    world.collected_energy == 0,
                    world.collected_crystals == 0,
                    forall|p: Pos|
                        world.in_bounds_spec(p) ==> #[trigger] world.tile_at(p) == (if (-1 <= p.x
                            - base.x <= 1 && -1 <= p.y - base.y < dy) || (p.y - base.y == dy && -1
                            <= p.x - base.x < dx) {
                            Tile::Empty
                        } else if obstacles@[world.index_of(p)] {
                            Tile::Obstacle
                        } else {
                            Tile::Empty
                        }),
                decreases 2 - dx,
            {
                let p = Pos::new(base.x + dx, base.y + dy);
                if world.in_bounds(p) {
                    proof {
                        world.lemma_in_bounds_index(p);
                    }
                    let i = world.idx(p);
                    let ghost before = world;
                    world.tiles.set(i, Tile::Empty);
                    proof {
                        assert forall|q: Pos| world.in_bounds_spec(q) implies #[trigger] world.tile_at(q) == (
                        if (-1 <= q.x - base.x <= 1 && -1 <= q.y - base.y < dy) || (q.y - base.y == dy
                            && -1 <= q.x - base.x < dx + 1) {
                            Tile::Empty
                        } else if obstacles@[world.index_of(q)] {
                            Tile::Obstacle
                        } else {
                            Tile::Empty
                        }) by {
                            world.lemma_in_bounds_index(q);
                            if q != p {
                                world.lemma_index_distinct(q, p);
                                assert(before.tile_at(q) == world.tile_at(q));
                            }
                        }
                    }
                }
                dx = dx + 1;
            }
            dy = dy + 1;
        }
        proof {
            world.lemma_in_bounds_index(base);
        }
        let bi = world.idx(base);
        let ghost before = world;
        world.tiles.set(bi, Tile::Base);
        proof {
            assert forall|q: Pos| world.in_bounds_spec(q) implies #[trigger] world.tile_at(q) == terrain_tile(
                q,
                world.base,
                obstacles@[world.index_of(q)],
            ) by {
                world.lemma_in_bounds_index(q);
                if q != base {
                    world.lemma_index_distinct(q, base);
                    assert(before.tile_at(q) == world.tile_at(q));
                }
            }
        }
        world
    }

    /// A deposit may go on `p`: on the map, empty ground, not the base, and no
    /// deposit there yet.
    pub open spec fn can_place_spec(&self, p: Pos) -> bool {
        &&& self.in_bounds_spec(p)
        &&& self.tile_at(p) == Tile::Empty
        &&& p != self.base
        &&& !self.resources@.contains_key(p)
    }

    /// Whether a deposit may go on `p`.
    pub fn can_place(&self, p: Pos) -> (b: bool)
        requires
            self.wf(),
        ensures
            b == self.can_place_spec(p),
    {
        if !self.in_bounds(p) {
            return false;
        }
        proof {
            self.lemma_in_bounds_index(p);
        }
        self.tile(p) == Tile::Empty && !self.resources.contains_key(p) && p != self.base
    }

    /// Puts a deposit of `remaining` units of `kind` on `p` when a deposit may
    /// go there (see `can_place`), and says whether it did.
    pub fn try_place(&mut self, p: Pos, remaining: u32, kind: ResourceKind) -> (placed: bool)
        requires
            old(self).wf(),
        ensures
            final(self).wf(),
            placed == old(self).can_place_spec(p),
            placed ==> final(self).resources@ == old(self).resources@.insert(
                p,
                Resource { kind, remaining },
            ),
            placed ==> final(self).resources.entries() == old(self).resources.entries().push(
                (p, Resource { kind, remaining }),
            ),
            !placed ==> final(self).resources == old(self).resources,
            final(self).width == old(self).width,
            final(self).height == old(self).height,
            final(self).tiles == old(self).tiles,
            final(self).base == old(self).base,
            final(self).robots == old(self).robots,
            final(self).collected_energy == old(self).collected_energy,
            final(self).collected_crystals == old(self).collected_crystals,
    {
        if self.can_place(p) {
            self.resources.insert(p, Resource { kind, remaining });
            true
        } else {
            false
        }
    }

    /// Scatters up to `count` deposits of `kind` on free cells, as
    /// `scatter_resources` does, and returns the cells drawn, in order. Each
    /// drawn cell where a deposit may go, while fewer than `count` are
    /// placed, receives one (of 50 to 200 units): the new deposits are
    /// `scatter_picks` of the draws, in order. Drawing stops once `count`
    /// deposits are placed or after `200 * count` draws.
    pub fn scatter_logged(&mut self, kind: ResourceKind, count: u32, rng: &mut ThreadRng) -> (log: Vec<Pos>)
        requires
            old(self).wf(),
            1 <= old(self).width,
            1 <= old(self).height,
            count * 200 <= u32::MAX,
        ensures
            final(self).wf(),
            final(self).width == old(self).width,
            final(self).height == old(self).height,
            final(self).tiles == old(self).tiles,
            final(self).base == old(self).base,
            final(self).robots == old(self).robots,
            final(self).collected_energy == old(self).collected_energy,
            final(self).collected_crystals == old(self).collected_crystals,
            final(self).resources.entries().len() <= old(self).resources.entries().len() + count,
            log@.len() <= count * 200,
            final(self).resources.entries().len() - old(self).resources.entries().len() <= log@.len(),
            final(self).resources.entries().len() == old(self).resources.entries().len() + count || log@.len()
                == count * 200,
            final(self).resources.entries().len() == old(self).resources.entries().len() + scatter_picks(
                *old(self),
                count as int,
                log@,
            ).len(),
            forall|i: int|
                0 <= i < old(self).resources.entries().len() ==> #[trigger] final(self).resources.entries()[i]
                    == old(self).resources.entries()[i],
            forall|i: int|
                0 <= i < scatter_picks(*old(self), count as int, log@).len() ==> {
                    let e = #[trigger] final(self).resources.entries()[old(self).resources.entries().len() + i];
                    &&& e.0 == scatter_picks(*old(self), count as int, log@)[i]
                    &&& e.1.kind == kind
                    &&& 50 <= e.1.remaining <= 200
                },
            forall|i: int| 0 <= i < log@.len() ==> old(self).in_bounds_spec(#[trigger] log@[i]),
            forall|i: int|
                0 <= i < log@.len() ==> #[trigger] scatter_picks(*old(self), count as int, log@.take(i)).len()
                    < count,
            final(self).resources.entries().len() >= old(self).resources.entries().len(),
            forall|p: Pos|
                #[trigger] old(self).resources@.contains_key(p) ==> final(self).resources@.contains_key(p)
                    && final(self).resources@[p] == old(self).resources@[p],
            forall|p: Pos|
                #[trigger] final(self).resources@.contains_key(p) && !old(self).resources@.contains_key(p)
                    ==> {
                    &&& final(self).in_bounds_spec(p)
                    &&& final(self).tile_at(p) == Tile::Empty
                    &&& p != final(self).base
                    &&& final(self).resources@[p].kind == kind
                    &&& 50 <= final(self).resources@[p].remaining <= 200
                },
    {
        let ghost start = *self;
        let mut placed: u32 = 0;
        let mut attempts: u32 = 0;
        let mut log: Vec<Pos> = Vec::new();
        proof {
            assert forall|q: Pos| #[trigger] self.resources@.contains_key(q) <==> (start.resources@.contains_key(q)
                || scatter_picks(start, count as int, log@).contains(q)) by {}
        }
        while placed < count && attempts < count * 200
            invariant
                self.wf(),
                1 <= self.width,
                1 <= self.height,
                count * 200 <= u32::MAX,
                placed <= count,
                placed <= attempts,
                attempts <= count * 200,
                self.width == start.width,
                self.height == start.height,
                self.tiles == start.tiles,
                self.base == start.base,
                self.robots == start.robots,
                self.collected_energy == start.collected_energy,
                self.collected_crystals == start.collected_crystals,
                self.resources.entries().len() == start.resources.entries().len() + placed,
                log@.len() == attempts,
                placed == scatter_picks(start, count as int, log@).len(),
                forall|i: int|
                    0 <= i < start.resources.entries().len() ==> #[trigger] self.resources.entries()[i]
                        == start.resources.entries()[i],
                forall|i: int|
                    0 <= i < scatter_picks(start, count as int, log@).len() ==> {
                        let e = #[trigger] self.resources.entries()[start.resources.entries().len() + i];
                        &&& e.0 == scatter_picks(start, count as int, log@)[i]
                        &&& e.1.kind == kind
                        &&& 50 <= e.1.remaining <= 200
                    },
                forall|q: Pos|
                    #[trigger] self.resources@.contains_key(q) <==> (start.resources@.contains_key(q)
                        || scatter_picks(start, count as int, log@).contains(q)),
                forall|i: int| 0 <= i < log@.len() ==> start.in_bounds_spec(#[trigger] log@[i]),
                forall|i: int|
                    0 <= i < log@.len() ==> #[trigger] scatter_picks(start, count as int, log@.take(i)).len()
                        < count,
                forall|p: Pos|
                    #[trigger] start.resources@.contains_key(p) ==> self.resources@.contains_key(p)
                        && self.resources@[p] == start.resources@[p],
                forall|p: Pos|
                    #[trigger] self.resources@.contains_key(p) && !start.resources@.contains_key(p) ==> {
                        &&& self.in_bounds_spec(p)
                        &&& self.tile_at(p) == Tile::Empty
                        &&& p != self.base
                        &&& self.resources@[p].kind == kind
                        &&& 50 <= self.resources@[p].remaining <= 200
                    },
            decreases count * 200 - attempts,
        {
            attempts = attempts + 1;
            let x = random_in(rng, 0, self.width);
            let y = random_in(rng, 0, self.height);
            let p = Pos::new(x, y);
            let ghost log0 = log@;
            let ghost picks0 = scatter_picks(start, count as int, log0);
            let ghost before = *self;
            log.push(p);
            proof {
                assert(log@.drop_last() =~= log0);
                assert(log@.last() == p);
                assert(log@.take(log0.len() as int) =~= log0);
                assert forall|i: int| 0 <= i < log@.len() implies #[trigger] scatter_picks(
                    start,
                    count as int,
                    log@.take(i),
                ).len() < count by {
                    if i < log0.len() {
                        assert(log@.take(i) =~= log0.take(i));
                    }
                }
                assert(self.can_place_spec(p) == (start.can_place_spec(p) && !picks0.contains(p)));
            }
            if self.can_place(p) {
                let remaining = random_in(rng, 50, 201) as u32;
                self.try_place(p, remaining, kind);
                placed = placed + 1;
                proof {
                    let picks = scatter_picks(start, count as int, log@);
                    assert(picks == picks0.push(p));
                    assert forall|q: Pos| #[trigger] self.resources@.contains_key(q) <==> (start.resources@.contains_key(
                        q,
                    ) || picks.contains(q)) by {
                        if q == p {
                            assert(picks[picks.len() - 1] == p);
                        } else if picks0.contains(q) {
                            let i = choose|i: int| 0 <= i < picks0.len() && picks0[i] == q;
                            assert(picks[i] == q);
                        } else if picks.contains(q) {
                            let i = choose|i: int| 0 <= i < picks.len() && picks[i] == q;
                            assert(i < picks0.len());
                            assert(picks0[i] == q);
                        }
                    }
                    assert forall|i: int| 0 <= i < picks.len() implies {
                        let e = #[trigger] self.resources.entries()[start.resources.entries().len() + i];
                        &&& e.0 == picks[i]
                        &&& e.1.kind == kind
                        &&& 50 <= e.1.remaining <= 200
                    } by {
                        if i < picks0.len() {
                            assert(self.resources.entries()[start.resources.entries().len() + i]
                                == before.resources.entries()[start.resources.entries().len() + i]);
                        }
                    }
                    assert forall|i: int| 0 <= i < start.resources.entries().len() implies #[trigger] self.resources.entries()[i]
                        == start.resources.entries()[i] by {
                        assert(self.resources.entries()[i] == before.resources.entries()[i]);
                    }
                }
            } else {
                proof {
                    assert(scatter_picks(start, count as int, log@) == picks0);
                }
            }
        }
        log
    }

    /// Scatters up to `count` deposits of `kind` on free cells: each draw
    /// picks a random cell, and a cell where a deposit may go (see
    /// `can_place`) receives one of 50 to 200 units. Drawing stops once
    /// `count` deposits are placed or after `200 * count` draws; the number
    /// of draws is returned. See `scatter_logged` for the deposits that the
    /// draws give.
    pub fn scatter_resources(&mut self, kind: ResourceKind, count: u32, rng: &mut ThreadRng) -> (draws: u32)
        requires
            old(self).wf(),
            1 <= old(self).width,
            1 <= old(self).height,
            count * 200 <= u32::MAX,
        ensures
            final(self).wf(),
            final(self).width == old(self).width,
            final(self).height == old(self).height,
            final(self).tiles == old(self).tiles,
            final(self).base == old(self).base,
            final(self).robots == old(self).robots,
            final(self).collected_energy == old(self).collected_energy,
            final(self).collected_crystals == old(self).collected_crystals,
            final(self).resources.entries().len() <= old(self).resources.entries().len() + count,
            draws <= count * 200,
            final(self).resources.entries().len() - old(self).resources.entries().len() <= draws,
            final(self).resources.entries().len() == old(self).resources.entries().len() + count || draws
                == count * 200,
            final(self).resources.entries().len() >= old(self).resources.entries().len(),
            forall|p: Pos|
                #[trigger] old(self).resources@.contains_key(p) ==> final(self).resources@.contains_key(p)
                    && final(self).resources@[p] == old(self).resources@[p],
            forall|p: Pos|
                #[trigger] final(self).resources@.contains_key(p) && !old(self).resources@.contains_key(p)
                    ==> {
                    &&& final(self).in_bounds_spec(p)
                    &&& final(self).tile_at(p) == Tile::Empty
                    &&& p != final(self).base
                    &&& final(self).resources@[p].kind == kind
                    &&& 50 <= final(self).resources@[p].remaining <= 200
                },
    {
        let log = self.scatter_logged(kind, count, rng);
        log.len() as u32
    }

    /// Records robot `id` at `pos`, carrying `carrying`.
    pub fn place_robot(&mut self, id: usize, pos: Pos, carrying: Option<ResourceKind>)
        requires
            id < old(self).robots@.len(),
        ensures
            final(self).robots@ == old(self).robots@.update(
                id as int,
                RobotView { kind: old(self).robots@[id as int].kind, pos, carrying },
            ),
            final(self).width == old(self).width,
            final(self).height == old(self).height,
            final(self).tiles == old(self).tiles,
            final(self).resources == old(self).resources,
            final(self).base == old(self).base,
            final(self).collected_energy == old(self).collected_energy,
            final(self).collected_crystals == old(self).collected_crystals,
    {
        let kind = self.robots[id].kind;
        self.robots.set(id, RobotView { kind, pos, carrying });
    }
}

} // verus!
