//! The robots' decisions for one tick. Scouts wander with momentum and report
//! what they see; collectors claim a known resource, fetch one unit at a time
//! and bring it back to the base. Each function works on values that the
//! caller read from the shared state, and returns the messages for the base.

use rand::rngs::ThreadRng;
use vstd::prelude::*;

use crate::knowledge::{Knowledge, available_to, nearest_spec};
use crate::map::{Resource, RobotView, World};
use crate::message::Message;
use crate::path::{first_step_of_shortest, next_step, search_step};
use crate::posmap::PosSet;
use crate::rng::{random_choice, random_in, random_ratio};
use crate::types::{
    Pos, ResourceKind, adjacent, dist, has_neighbors, is_unit_dir, lemma_adjacent_iff_neighbor, neighbor, shifted,
    unit_dir,
};

verus! {

/// The private state of one robot.
#[derive(Clone, Copy, Debug)]
pub struct State {
    pub id: usize,
    pub pos: Pos,
    pub carrying: Option<ResourceKind>,
    pub target: Option<Pos>,
    /// A scout's current heading, one of the four unit moves: it keeps going
    /// straight while it can, which covers more ground than a pure random
    /// walk.
    pub dir: (i32, i32),
}

impl State {
    /// A robot's starting state at `start`, carrying nothing, without target,
    /// heading along a random one of the four unit moves.
    pub fn initial(id: usize, start: Pos, rng: &mut ThreadRng) -> (st: State)
        ensures
            st.id == id,
            st.pos == start,
            st.carrying is None,
            st.target is None,
            is_unit_dir(st.dir),
    {
        let k = random_in(rng, 0, 4) as usize;
        State { id, pos: start, carrying: None, target: None, dir: dirs_at(k) }
    }
}

/// What a robot reports of the cell `p` next to it: an obstacle, or a
/// resource with the units left in it; nothing for an off-map or plain cell.
pub open spec fn sense_at(w: World, p: Pos) -> Seq<Message> {
    if !w.in_bounds_spec(p) {
        Seq::<Message>::empty()
    } else if w.obstacle_at(p) {
        seq![Message::FoundObstacle { pos: p }]
    } else if w.resources@.contains_key(p) {
        seq![
            Message::FoundResource {
                pos: p,
                kind: w.resources@[p].kind,
                qty: w.resources@[p].remaining,
            },
        ]
    } else {
        Seq::<Message>::empty()
    }
}

/// The reports for the first `k` neighbours of `pos`.
pub open spec fn sense_prefix(w: World, pos: Pos, k: int) -> Seq<Message>
    decreases k,
{
    if k <= 0 {
        Seq::<Message>::empty()
    } else {
        sense_prefix(w, pos, k - 1) + sense_at(w, neighbor(pos, k - 1))
    }
}

/// The reports for the four neighbours of `pos`, in neighbour order.
pub open spec fn sense_all(w: World, pos: Pos) -> Seq<Message> {
    sense_prefix(w, pos, 4)
}

/// The map is well formed, lists robot `st.id`, and the robot's four
/// neighbours can be computed (true of every cell on the map).
pub open spec fn placed(w: World, st: State) -> bool {
    &&& w.wf()
    &&& st.id < w.robots@.len()
    &&& has_neighbors(st.pos)
}

/// The reports depend only on the grid and the resources.
proof fn lemma_sense_same(w1: World, w2: World, pos: Pos)
    requires
        w1.width == w2.width,
        w1.height == w2.height,
        w1.tiles == w2.tiles,
        w1.resources == w2.resources,
    ensures
        sense_all(w1, pos) == sense_all(w2, pos),
{
    reveal_with_fuel(sense_prefix, 5);
}

/// Appends the reports for the four neighbours of `pos`.
pub fn sense(w: &World, pos: Pos, msgs: &mut Vec<Message>)
    requires
        w.wf(),
        has_neighbors(pos),
    ensures
        final(msgs)@ == old(msgs)@ + sense_all(*w, pos),
{
    let ghost m0 = msgs@;
    let nb = pos.neighbors4();
    let mut k: usize = 0;
    while k < 4
        invariant
            0 <= k <= 4,
            w.wf(),
            forall|j: int| 0 <= j < 4 ==> #[trigger] nb@[j] == neighbor(pos, j),
            msgs@ == m0 + sense_prefix(*w, pos, k as int),
        decreases 4 - k,
    {
        let p = nb[k];
        assert(p == neighbor(pos, k as int));
        let ghost before = msgs@;
        if w.in_bounds(p) {
            if w.is_obstacle(p) {
                msgs.push(Message::FoundObstacle { pos: p });
            } else {
                match w.resources.find(p) {
                    Some(i) => {
                        let r = *w.resources.value_at(i);
                        msgs.push(Message::FoundResource { pos: p, kind: r.kind, qty: r.remaining });
                    },
                    None => {},
                }
            }
        }
        proof {
            assert(msgs@ =~= before + sense_at(*w, p));
            assert(sense_prefix(*w, pos, k + 1) == sense_prefix(*w, pos, k as int) + sense_at(*w, p));
            assert(msgs@ =~= m0 + sense_prefix(*w, pos, k + 1));
        }
        k = k + 1;
    }
}

/// Whether robot `id` may step on `p`: no real obstacle, no other robot.
fn is_free(w: &World, p: Pos, id: usize) -> (b: bool)
    requires
        w.wf(),
    ensures
        b == w.free_for(p, id),
{
    !w.is_obstacle(p) && !w.is_occupied(p, id)
}

/// A random neighbour of `pos` that robot `id` may step on, if any.
pub fn random_walk(w: &World, id: usize, pos: Pos, rng: &mut ThreadRng) -> (r: Option<Pos>)
    requires
        w.wf(),
        has_neighbors(pos),
    ensures
        r is None <==> forall|k: int| 0 <= k < 4 ==> !w.free_for(#[trigger] neighbor(pos, k), id),
        r matches Some(p) ==> exists|k: int| 0 <= k < 4 && p == #[trigger] neighbor(pos, k) && w.free_for(p, id),
{
    let nb = pos.neighbors4();
    let mut options: Vec<Pos> = Vec::new();
    let mut k: usize = 0;
    while k < 4
        invariant
            0 <= k <= 4,
            w.wf(),
            forall|j: int| 0 <= j < 4 ==> #[trigger] nb@[j] == neighbor(pos, j),
            forall|i: int|
                0 <= i < options@.len() ==> exists|j: int|
                    0 <= j < k && #[trigger] options@[i] == neighbor(pos, j) && w.free_for(options@[i], id),
            forall|j: int| 0 <= j < k && w.free_for(#[trigger] neighbor(pos, j), id) ==> options@.contains(
                neighbor(pos, j),
            ),
        decreases 4 - k,
    {
        let p = nb[k];
        assert(p == neighbor(pos, k as int));
        if is_free(w, p, id) {
            let ghost before = options@;
            options.push(p);
            proof {
                assert forall|i: int| 0 <= i < options@.len() implies exists|j: int|
                    0 <= j < k + 1 && #[trigger] options@[i] == neighbor(pos, j) && w.free_for(options@[i], id) by {
                    if i < before.len() {
                        assert(options@[i] == before[i]);
                    } else {
                        assert(options@[i] == neighbor(pos, k as int));
                    }
                }
                assert forall|j: int| 0 <= j < k + 1 && w.free_for(#[trigger] neighbor(pos, j), id) implies options@.contains(
                    neighbor(pos, j),
                ) by {
                    if j < k {
                        let i = choose|i: int| 0 <= i < before.len() && before[i] == neighbor(pos, j);
                        assert(options@[i] == before[i]);
                    } else {
                        assert(options@[before.len() as int] == p);
                    }
                }
            }
        }
        k = k + 1;
    }
    let r = random_choice(rng, &options);
    proof {
        if r is None {
            assert forall|k: int| 0 <= k < 4 implies !w.free_for(#[trigger] neighbor(pos, k), id) by {
                if w.free_for(neighbor(pos, k), id) {
                    assert(options@.contains(neighbor(pos, k)));
                }
            }
        } else {
            let p = r->0;
            let i = choose|i: int| 0 <= i < options@.len() && options@[i] == p;
            assert(exists|j: int| 0 <= j < 4 && #[trigger] options@[i] == neighbor(pos, j) && w.free_for(options@[i], id));
        }
    }
    r
}

/// A neighbour that robot `id` may take on its way to `goal`: on the map, no
/// real or known obstacle, no other robot.
pub open spec fn greedy_ok(w: World, p: Pos, id: usize, obstacles: Set<Pos>) -> bool {
    w.in_bounds_spec(p) && !w.obstacle_at(p) && !obstacles.contains(p) && !w.occupied_by_other(p, id)
}

/// Among the acceptable neighbours of `from`, the first (in neighbour order)
/// of those closest to `goal`; `None` when there is none. This is the
/// fallback when the path search gives no usable step.
pub fn greedy_step(from: Pos, goal: Pos, id: usize, w: &World, obstacles: &PosSet) -> (r: Option<Pos>)
    requires
        w.wf(),
        has_neighbors(from),
    ensures
        r is None <==> forall|k: int| 0 <= k < 4 ==> !greedy_ok(*w, #[trigger] neighbor(from, k), id, obstacles@),
        r matches Some(p) ==> exists|k: int|
            {
                &&& 0 <= k < 4
                &&& p == neighbor(from, k)
                &&& greedy_ok(*w, p, id, obstacles@)
                &&& forall|j: int|
                    0 <= j < 4 && greedy_ok(*w, #[trigger] neighbor(from, j), id, obstacles@) ==> dist(p, goal)
                        <= dist(neighbor(from, j), goal)
                &&& forall|j: int|
                    0 <= j < k && greedy_ok(*w, #[trigger] neighbor(from, j), id, obstacles@) ==> dist(p, goal)
                        < dist(neighbor(from, j), goal)
            },
{
    let nb = from.neighbors4();
    let mut best: Option<Pos> = None;
    let mut best_d: u64 = 0;
    let ghost mut best_k: int = 0;
    let mut k: usize = 0;
    while k < 4
        invariant
            0 <= k <= 4,
            w.wf(),
            forall|j: int| 0 <= j < 4 ==> #[trigger] nb@[j] == neighbor(from, j),
            best is None <==> forall|j: int| 0 <= j < k ==> !greedy_ok(*w, #[trigger] neighbor(from, j), id, obstacles@),
            best matches Some(p) ==> {
                &&& 0 <= best_k < k
                &&& p == neighbor(from, best_k)
                &&& greedy_ok(*w, p, id, obstacles@)
                &&& best_d == dist(p, goal)
                &&& forall|j: int|
                    0 <= j < k && greedy_ok(*w, #[trigger] neighbor(from, j), id, obstacles@) ==> dist(p, goal)
                        <= dist(neighbor(from, j), goal)
                &&& forall|j: int|
                    0 <= j < best_k && greedy_ok(*w, #[trigger] neighbor(from, j), id, obstacles@) ==> dist(p, goal)
                        < dist(neighbor(from, j), goal)
            },
        decreases 4 - k,
    {
        let p = nb[k];
        assert(p == neighbor(from, k as int));
        if w.in_bounds(p) && !w.is_obstacle(p) && !obstacles.contains(p) && !w.is_occupied(p, id) {
            let dp = p.manhattan(goal);
            if best.is_none() || dp < best_d {
                best = Some(p);
                best_d = dp;
                proof {
                    best_k = k as int;
                }
            }
        }
        k = k + 1;
    }
    best
}

/// `p` is the neighbour that `greedy_step` gives from `from` towards `goal`.
pub open spec fn greedy_pick(w: World, from: Pos, goal: Pos, id: usize, obstacles: Set<Pos>, p: Pos) -> bool {
    exists|k: int|
        {
            &&& 0 <= k < 4
            &&& p == neighbor(from, k)
            &&& greedy_ok(w, p, id, obstacles)
            &&& forall|j: int|
                0 <= j < 4 && greedy_ok(w, #[trigger] neighbor(from, j), id, obstacles) ==> dist(p, goal)
                    <= dist(neighbor(from, j), goal)
            &&& forall|j: int|
                0 <= j < k && greedy_ok(w, #[trigger] neighbor(from, j), id, obstacles) ==> dist(p, goal)
                    < dist(neighbor(from, j), goal)
        }
}

/// Takes one unit from the deposit at `t`, where the collector stands. The
/// world is the authority on what is left: the collector loads one unit and
/// drops its target; the deposit leaves the world when it runs out, or when
/// nothing was left there, and the base is told either way.
pub fn collect_here(w: &mut World, t: Pos, st: &mut State, msgs: &mut Vec<Message>)
    requires
        old(w).wf(),
    ensures
        final(w).wf(),
        final(w).width == old(w).width,
        final(w).height == old(w).height,
        final(w).tiles == old(w).tiles,
        final(w).base == old(w).base,
        final(w).robots == old(w).robots,
        final(w).collected_energy == old(w).collected_energy,
        final(w).collected_crystals == old(w).collected_crystals,
        final(st).id == old(st).id,
        final(st).pos == old(st).pos,
        final(st).dir == old(st).dir,
        final(st).target is None,
        ({
            let res = old(w).resources@;
            if res.contains_key(t) && res[t].remaining > 0 {
                let r = res[t];
                &&& final(st).carrying == Some(r.kind)
                &&& if r.remaining == 1 {
                    &&& final(w).resources@ == res.remove(t)
                    &&& final(msgs)@ == old(msgs)@.push(Message::Deplete { pos: t })
                } else {
                    &&& final(w).resources@ == res.insert(
                        t,
                        Resource { kind: r.kind, remaining: (r.remaining - 1) as u32 },
                    )
                    &&& final(msgs)@ == old(msgs)@.push(
                        Message::FoundResource { pos: t, kind: r.kind, qty: (r.remaining - 1) as u32 },
                    )
                }
            } else {
                &&& final(st).carrying == old(st).carrying
                &&& final(w).resources@ == res.remove(t)
                &&& final(msgs)@ == old(msgs)@.push(Message::Deplete { pos: t })
            }
        }),
{
    match w.resources.find(t) {
        Some(i) => {
            let r = *w.resources.value_at(i);
            if r.remaining > 0 {
                let remaining = r.remaining - 1;
                let kind = r.kind;
                st.carrying = Some(kind);
                st.target = None;
                if remaining == 0 {
                    w.resources.remove(t);
                    msgs.push(Message::Deplete { pos: t });
                } else {
                    w.resources.set_at(i, Resource { kind, remaining });
                    msgs.push(Message::FoundResource { pos: t, kind, qty: remaining });
                }
                return ;
            }
        },
        None => {},
    }
    w.resources.remove(t);
    msgs.push(Message::Deplete { pos: t });
    st.target = None;
}

/// What `advance` reports, and where the path search sends it. The search
/// gives `search_step`: a real obstacle there is reported (once) and not
/// entered, and a free step is taken. When the search gives nothing (at the
/// goal, or no known path), nothing is reported. When its step is not taken,
/// the robot takes the greedy neighbour, or a random free one when there is
/// no greedy one.
pub open spec fn advance_plan(
    w: World,
    id: usize,
    from: Pos,
    to: Pos,
    goal: Pos,
    obstacles: Set<Pos>,
    a: Seq<Message>,
) -> bool {
    match search_step(from, w.width as int, w.height as int, goal, obstacles) {
        None => {
            &&& a.len() == 0
            &&& to == from || greedy_pick(w, from, goal, id, obstacles, to) || forall|k: int|
                0 <= k < 4 ==> !greedy_ok(w, #[trigger] neighbor(from, k), id, obstacles)
        },
        Some(q) => {
            &&& w.obstacle_at(q) ==> a == seq![Message::FoundObstacle { pos: q }] && to != q
            &&& !w.obstacle_at(q) ==> a.len() == 0
            &&& w.free_for(q, id) ==> to == q
            &&& !w.free_for(q, id) ==> to == from || greedy_pick(w, from, goal, id, obstacles, to)
                || forall|k: int| 0 <= k < 4 ==> !greedy_ok(w, #[trigger] neighbor(from, k), id, obstacles)
        },
    }
}

/// Moves robot `id` one step from `pos` towards `goal`. The step comes from
/// the breadth-first search over the known `obstacles`; a step that turns
/// out to be a real obstacle is reported and not taken, and a step that is
/// blocked by another robot is not taken either. Then the robot takes the
/// acceptable neighbour closest to the goal, or else any free neighbour,
/// and stays put only when no neighbour is free.
pub fn advance(
    w: &World,
    id: usize,
    pos: &mut Pos,
    goal: Pos,
    obstacles: &PosSet,
    msgs: &mut Vec<Message>,
    rng: &mut ThreadRng,
)
    requires
        w.wf(),
        has_neighbors(*old(pos)),
    ensures
        (*final(pos) == *old(pos)) <==> forall|k: int|
            0 <= k < 4 ==> !w.free_for(#[trigger] neighbor(*old(pos), k), id),
        *final(pos) != *old(pos) ==> adjacent(*old(pos), *final(pos)) && w.free_for(*final(pos), id),
        *final(pos) == *old(pos) || first_step_of_shortest(
            *final(pos),
            *old(pos),
            w.width as int,
            w.height as int,
            goal,
            obstacles@,
        ) || greedy_pick(*w, *old(pos), goal, id, obstacles@, *final(pos)) || forall|k: int|
            0 <= k < 4 ==> !greedy_ok(*w, #[trigger] neighbor(*old(pos), k), id, obstacles@),
        exists|a: Seq<Message>|
            {
                &&& final(msgs)@ == old(msgs)@ + a
                &&& advance_plan(*w, id, *old(pos), *final(pos), goal, obstacles@, a)
            },
{
    let from = *pos;
    let ghost m0 = msgs@;
    proof {
        assert(w.width * w.height <= i32::MAX);
    }
    let bfs_next = next_step(from, goal, w.width, w.height, obstacles);
    if let Some(np) = bfs_next {
        if w.is_obstacle(np) {
            msgs.push(Message::FoundObstacle { pos: np });
        }
    }
    let step = match bfs_next {
        Some(np) => {
            if !w.is_obstacle(np) && !w.is_occupied(np, id) {
                Some(np)
            } else {
                None
            }
        },
        None => None,
    };
    let step = match step {
        Some(np) => Some(np),
        None => match greedy_step(from, goal, id, w, obstacles) {
            Some(g) => Some(g),
            None => random_walk(w, id, from, rng),
        },
    };
    if let Some(np) = step {
        *pos = np;
    }
    proof {
        if *pos != from {
            if exists|k: int| 0 <= k < 4 && *pos == #[trigger] neighbor(from, k) {
                let k = choose|k: int| 0 <= k < 4 && *pos == #[trigger] neighbor(from, k);
                assert(adjacent(from, neighbor(from, k)));
            }
            lemma_adjacent_iff_neighbor(from, *pos);
            let k = choose|k: int| 0 <= k < 4 && neighbor(from, k) == *pos;
            assert(w.free_for(neighbor(from, k), id));
        } else {
            assert forall|k: int| 0 <= k < 4 implies !w.free_for(#[trigger] neighbor(from, k), id) by {
                if w.free_for(neighbor(from, k), id) {
                    assert(!greedy_ok(*w, neighbor(from, k), id, obstacles@));
                }
            }
        }
        let a = msgs@.subrange(m0.len() as int, msgs@.len() as int);
        assert(msgs@ =~= m0 + a);
        if bfs_next is Some {
            let q = bfs_next->0;
            if w.obstacle_at(q) {
                assert(a =~= seq![Message::FoundObstacle { pos: q }]);
            } else {
                assert(a.len() == 0);
            }
        } else {
            assert(a.len() == 0);
        }
        assert(advance_plan(*w, id, from, *pos, goal, obstacles@, a));
        if exists|k: int| 0 <= k < 4 && w.free_for(#[trigger] neighbor(from, k), id) {
            assert(step is Some);
            if bfs_next is Some && step == bfs_next {
                assert(adjacent(from, bfs_next->0));
            } else {
                let np = step->0;
                let k = choose|k: int| 0 <= k < 4 && np == #[trigger] neighbor(from, k);
                assert(np != from);
            }
        }
    }
}

/// A cell a scout likes to enter: no real obstacle, not a known obstacle,
/// no other robot.
pub open spec fn scout_walkable(w: World, known: Set<Pos>, p: Pos, id: usize) -> bool {
    !w.obstacle_at(p) && !known.contains(p) && !w.occupied_by_other(p, id)
}

/// The unit moves in neighbour order.
fn unit_dirs() -> (d: [(i32, i32); 4])
    ensures
        forall|k: int| 0 <= k < 4 ==> #[trigger] d@[k] == unit_dir(k),
{
    [(1, 0), (-1, 0), (0, 1), (0, -1)]
}

/// The move `unit_dir(k)` leads to a cell that satisfies `scout_walkable`
/// (when `known_only`) or `free_for`.
pub open spec fn option_ok(w: World, known: Set<Pos>, pos: Pos, id: usize, known_only: bool, k: int) -> bool {
    if known_only {
        scout_walkable(w, known, neighbor(pos, k), id)
    } else {
        w.free_for(neighbor(pos, k), id)
    }
}

/// The indices `k` of the unit moves, in neighbour order, that `option_ok`
/// accepts.
fn scout_options(w: &World, known: &PosSet, pos: Pos, id: usize, known_only: bool) -> (r: Vec<usize>)
    requires
        w.wf(),
        has_neighbors(pos),
    ensures
        forall|i: int|
            0 <= i < r@.len() ==> #[trigger] r@[i] < 4 && option_ok(*w, known@, pos, id, known_only, r@[i] as int),
        forall|k: int|
            0 <= k < 4 && #[trigger] option_ok(*w, known@, pos, id, known_only, k) ==> r@.contains(k as usize),
{
    let dirs = unit_dirs();
    let mut r: Vec<usize> = Vec::new();
    let mut k: usize = 0;
    while k < 4
        invariant
            0 <= k <= 4,
            w.wf(),
            has_neighbors(pos),
            forall|j: int| 0 <= j < 4 ==> #[trigger] dirs@[j] == unit_dir(j),
            forall|i: int|
                0 <= i < r@.len() ==> #[trigger] r@[i] < k && option_ok(*w, known@, pos, id, known_only, r@[i] as int),
            forall|j: int|
                0 <= j < k && #[trigger] option_ok(*w, known@, pos, id, known_only, j) ==> r@.contains(j as usize),
        decreases 4 - k,
    {
        let d = dirs[k];
        assert(d == unit_dir(k as int));
        let p = Pos::new(pos.x + d.0, pos.y + d.1);
        assert(p == neighbor(pos, k as int));
        let ok = if known_only {
            !w.is_obstacle(p) && !known.contains(p) && !w.is_occupied(p, id)
        } else {
            !w.is_obstacle(p) && !w.is_occupied(p, id)
        };
        assert(ok == option_ok(*w, known@, pos, id, known_only, k as int));
        if ok {
            let ghost before = r@;
            r.push(k);
            proof {
                assert forall|j: int|
                    0 <= j < k + 1 && #[trigger] option_ok(*w, known@, pos, id, known_only, j) implies r@.contains(j as usize) by {
                    if j < k {
                        let i = choose|i: int| 0 <= i < before.len() && before[i] == j as usize;
                        assert(r@[i] == before[i]);
                    } else {
                        assert(r@[before.len() as int] == k);
                    }
                }
            }
        }
        k = k + 1;
    }
    r
}

/// The unit move number `k`.
fn dirs_at(k: usize) -> (d: (i32, i32))
    requires
        k < 4,
    ensures
        d == unit_dir(k as int),
{
    let dirs = unit_dirs();
    dirs[k]
}

/// Where a scout goes, given the draws: `keep` says whether it may keep its
/// heading (the cell ahead must also be walkable), `pick` is the number of
/// the unit move drawn otherwise (`None` when none was drawn).
pub open spec fn scout_next(
    w: World,
    known: Set<Pos>,
    pos: Pos,
    dir: (i32, i32),
    id: usize,
    keep: bool,
    pick: Option<usize>,
) -> (Pos, (i32, i32)) {
    if keep && scout_walkable(w, known, shifted(pos, dir), id) {
        (shifted(pos, dir), dir)
    } else {
        match pick {
            Some(k) => (neighbor(pos, k as int), unit_dir(k as int)),
            None => (pos, dir),
        }
    }
}

/// `pick` is a draw that the scout's rule allows: among the walkable
/// neighbours when there is one, else among the free ones, and `None` only
/// when no neighbour is free.
pub open spec fn scout_pick_ok(w: World, known: Set<Pos>, pos: Pos, id: usize, pick: Option<usize>) -> bool {
    match pick {
        None => forall|k: int| 0 <= k < 4 ==> !w.free_for(#[trigger] neighbor(pos, k), id),
        Some(k) => k < 4 && if exists|j: int|
            0 <= j < 4 && scout_walkable(w, known, #[trigger] neighbor(pos, j), id) {
            scout_walkable(w, known, neighbor(pos, k as int), id)
        } else {
            w.free_for(neighbor(pos, k as int), id)
        },
    }
}

/// Moves a scout as `scout_next` says for the draws `keep` and `pick`.
pub fn scout_move(st: &mut State, w: &World, known: &PosSet, keep: bool, pick: Option<usize>)
    requires
        placed(*w, *old(st)),
        is_unit_dir(old(st).dir),
        pick matches Some(k) ==> k < 4,
    ensures
        (final(st).pos, final(st).dir) == scout_next(
            *w,
            known@,
            old(st).pos,
            old(st).dir,
            old(st).id,
            keep,
            pick,
        ),
        final(st).id == old(st).id,
        final(st).carrying == old(st).carrying,
        final(st).target == old(st).target,
{
    let ahead = Pos::new(st.pos.x + st.dir.0, st.pos.y + st.dir.1);
    if keep && !w.is_obstacle(ahead) && !known.contains(ahead) && !w.is_occupied(ahead, st.id) {
        st.pos = ahead;
    } else {
        match pick {
            Some(k) => {
                let d = dirs_at(k);
                st.dir = d;
                st.pos = Pos::new(st.pos.x + d.0, st.pos.y + d.1);
            },
            None => {},
        }
    }
}

/// One tick of a scout: it reports what surrounds it, then keeps its heading
/// when the cell ahead is walkable (17 times in 20), and otherwise picks a
/// random walkable heading, or, when known obstacles hem it in, any free
/// one. Scouts never collect.
pub fn scout_tick(st: &mut State, w: &mut World, known: &PosSet, rng: &mut ThreadRng) -> (msgs: Vec<
    Message,
>)
    requires
        placed(*old(w), *old(st)),
        is_unit_dir(old(st).dir),
    ensures
        msgs@ == sense_all(*old(w), old(st).pos),
        exists|keep: bool, pick: Option<usize>|
            {
                &&& keep ==> scout_walkable(*old(w), known@, shifted(old(st).pos, old(st).dir), old(st).id)
                &&& keep || scout_pick_ok(*old(w), known@, old(st).pos, old(st).id, pick)
                &&& (final(st).pos, final(st).dir) == scout_next(
                    *old(w),
                    known@,
                    old(st).pos,
                    old(st).dir,
                    old(st).id,
                    keep,
                    pick,
                )
            },
        final(st).id == old(st).id,
        final(st).carrying == old(st).carrying,
        final(st).target == old(st).target,
        is_unit_dir(final(st).dir),
        final(st).pos == old(st).pos || (final(st).pos == shifted(old(st).pos, final(st).dir)
            && old(w).free_for(final(st).pos, old(st).id)),
        (final(st).pos == old(st).pos) <==> forall|k: int|
            0 <= k < 4 ==> !old(w).free_for(#[trigger] neighbor(old(st).pos, k), old(st).id),
        (exists|k: int|
            0 <= k < 4 && scout_walkable(*old(w), known@, #[trigger] neighbor(old(st).pos, k), old(st).id))
            ==> scout_walkable(*old(w), known@, final(st).pos, old(st).id),
        placed(*final(w), *final(st)),
        old(w).in_bounds_spec(old(st).pos) ==> final(w).in_bounds_spec(final(st).pos),
        final(w).robots@ == old(w).robots@.update(
            old(st).id as int,
            RobotView { pos: final(st).pos, ..old(w).robots@[old(st).id as int] },
        ),
        final(w).width == old(w).width,
        final(w).height == old(w).height,
        final(w).tiles == old(w).tiles,
        final(w).resources == old(w).resources,
        final(w).base == old(w).base,
        final(w).collected_energy == old(w).collected_energy,
        final(w).collected_crystals == old(w).collected_crystals,
{
    let ghost w0 = *w;
    let ghost p0 = st.pos;
    let ghost d0 = st.dir;
    let mut msgs: Vec<Message> = Vec::new();
    sense(w, st.pos, &mut msgs);
    assert(msgs@ =~= sense_all(w0, p0));
    let ahead = Pos::new(st.pos.x + st.dir.0, st.pos.y + st.dir.1);
    let ahead_ok = !w.is_obstacle(ahead) && !known.contains(ahead) && !w.is_occupied(ahead, st.id);
    let keep = ahead_ok && random_ratio(rng, 17, 20);
    let pick: Option<usize> = if keep {
        None
    } else {
        let mut choices = scout_options(w, known, st.pos, st.id, true);
        let ghost known_only = true;
        if choices.len() == 0 {
            choices = scout_options(w, known, st.pos, st.id, false);
            proof {
                known_only = false;
            }
        }
        let ghost c = choices@;
        let pick = random_choice(rng, &choices);
        proof {
            match pick {
                Some(k) => {
                    let i = choose|i: int| 0 <= i < c.len() && c[i] == k;
                    assert(c[i] < 4 && option_ok(w0, known@, p0, st.id, known_only, c[i] as int));
                    if exists|j: int| 0 <= j < 4 && scout_walkable(w0, known@, #[trigger] neighbor(p0, j), st.id) {
                        let j = choose|j: int| 0 <= j < 4 && scout_walkable(w0, known@, #[trigger] neighbor(p0, j), st.id);
                        if !known_only {
                            assert(option_ok(w0, known@, p0, st.id, true, j));
                        }
                    } else if known_only {
                        assert(scout_walkable(w0, known@, neighbor(p0, k as int), st.id));
                    }
                },
                None => {
                    assert forall|k: int| 0 <= k < 4 implies !w0.free_for(#[trigger] neighbor(p0, k), st.id) by {
                        if w0.free_for(neighbor(p0, k), st.id) {
                            assert(option_ok(w0, known@, p0, st.id, false, k));
                            if known_only {
                                assert(c.len() > 0);
                            } else {
                                assert(c.contains(k as usize));
                            }
                        }
                    }
                },
            }
        }
        pick
    };
    scout_move(st, w, known, keep, pick);
    proof {
        if keep {
            let k: int = if d0 == (1i32, 0i32) {
                0
            } else if d0 == (-1i32, 0i32) {
                1
            } else if d0 == (0i32, 1i32) {
                2
            } else {
                3
            };
            assert(neighbor(p0, k) == ahead);
            assert(w0.free_for(neighbor(p0, k), st.id));
            assert(ahead == shifted(p0, d0));
            assert(st.pos == ahead);
        } else {
            match pick {
                Some(k) => {
                    assert(st.pos == neighbor(p0, k as int));
                    assert(w0.free_for(st.pos, st.id));
                    assert(st.pos == shifted(p0, st.dir));
                },
                None => {},
            }
        }
        assert(keep ==> scout_walkable(w0, known@, shifted(p0, d0), st.id));
        assert(keep || scout_pick_ok(w0, known@, p0, st.id, pick));
    }
    let carrying = w.robots[st.id].carrying;
    w.place_robot(st.id, st.pos, carrying);
    proof {
        assert(w.robots@ =~= w0.robots@.update(st.id as int, RobotView { pos: st.pos, ..w0.robots@[st.id as int] }));
    }
    msgs
}

/// The target `t` is still worth going to for collector `id`.
pub open spec fn target_still_ok(k: Knowledge, t: Pos, id: usize) -> bool {
    k.resources@.contains_key(t) && available_to(k.resources@[t], id)
}

/// The reading phase of a collector's tick. A target that is gone, depleted
/// or claimed by another collector is dropped; a collector that carries
/// nothing and has no target takes the nearest available resource and
/// claims it.
pub fn refresh_target(st: &mut State, k: &Knowledge, msgs: &mut Vec<Message>)
    requires
        k.wf(),
    ensures
        final(st).id == old(st).id,
        final(st).pos == old(st).pos,
        final(st).carrying == old(st).carrying,
        final(st).dir == old(st).dir,
        ({
            let kept = match old(st).target {
                Some(t) => target_still_ok(*k, t, old(st).id),
                None => false,
            };
            if kept {
                final(st).target == old(st).target && final(msgs)@ == old(msgs)@
            } else if old(st).carrying is Some {
                final(st).target is None && final(msgs)@ == old(msgs)@
            } else {
                &&& final(st).target == nearest_spec(*k, old(st).pos, old(st).id)
                &&& match final(st).target {
                    None => {
                        &&& final(msgs)@ == old(msgs)@
                        &&& forall|p: Pos|
                            #[trigger] k.resources@.contains_key(p) ==> !available_to(k.resources@[p], old(st).id)
                    },
                    Some(p) => {
                        &&& final(msgs)@ == old(msgs)@.push(Message::Claim { id: old(st).id, pos: p })
                        &&& target_still_ok(*k, p, old(st).id)
                        &&& forall|q: Pos|
                            #[trigger] k.resources@.contains_key(q) && available_to(k.resources@[q], old(st).id)
                                ==> dist(old(st).pos, p) <= dist(old(st).pos, q)
                    },
                }
            }
        }),
        (old(st).carrying is Some ==> old(st).target is None) ==> (final(st).carrying is Some
            ==> final(st).target is None),
{
    if let Some(t) = st.target {
        let still_ok = match k.resources.find(t) {
            Some(i) => {
                let r = k.resources.value_at(i);
                !r.depleted && r.qty > 0 && (r.claimed_by.is_none() || r.claimed_by == Some(st.id))
            },
            None => false,
        };
        if !still_ok {
            st.target = None;
        }
    }
    if st.carrying.is_none() && st.target.is_none() {
        if let Some(p) = k.nearest_available(st.pos, st.id) {
            st.target = Some(p);
            msgs.push(Message::Claim { id: st.id, pos: p });
        }
    }
}

/// A move of `advance` from `from` towards `goal`.
pub open spec fn advance_move(w: World, id: usize, from: Pos, to: Pos, goal: Pos, obstacles: Set<Pos>) -> bool {
    &&& (to == from) <==> forall|k: int| 0 <= k < 4 ==> !w.free_for(#[trigger] neighbor(from, k), id)
    &&& to != from ==> adjacent(from, to) && w.free_for(to, id)
    &&& to == from || first_step_of_shortest(to, from, w.width as int, w.height as int, goal, obstacles)
        || greedy_pick(w, from, goal, id, obstacles, to) || forall|k: int|
        0 <= k < 4 ==> !greedy_ok(w, #[trigger] neighbor(from, k), id, obstacles)
}

/// The acting phase of a collector's tick. Loaded: unload at the base (one
/// unit) or head there. Empty with a target: collect there or head there.
/// Empty without a target: wander. Then report the surroundings and record
/// the robot's new place and load in the world.
pub fn collector_act(
    st: &mut State,
    w: &mut World,
    obstacles: &PosSet,
    msgs: &mut Vec<Message>,
    rng: &mut ThreadRng,
)
    requires
        placed(*old(w), *old(st)),
    ensures
        (old(st).carrying is Some ==> old(st).target is None) ==> (final(st).carrying is Some
            ==> final(st).target is None),
        placed(*final(w), *final(st)),
        old(w).in_bounds_spec(old(st).pos) ==> final(w).in_bounds_spec(final(st).pos),
        final(st).id == old(st).id,
        final(st).dir == old(st).dir,
        final(w).width == old(w).width,
        final(w).height == old(w).height,
        final(w).tiles == old(w).tiles,
        final(w).base == old(w).base,
        final(w).collected_energy == old(w).collected_energy,
        final(w).collected_crystals == old(w).collected_crystals,
        final(w).robots@ == old(w).robots@.update(
            old(st).id as int,
            RobotView {
                pos: final(st).pos,
                carrying: final(st).carrying,
                ..old(w).robots@[old(st).id as int]
            },
        ),
        exists|a: Seq<Message>|
            {
                &&& final(msgs)@ == old(msgs)@ + a + sense_all(*final(w), final(st).pos)
                &&& match old(st).carrying {
                    Some(kind) => {
                        &&& final(w).resources == old(w).resources
                        &&& final(st).target == old(st).target
                        &&& if old(st).pos == old(w).base {
                            &&& final(st).carrying is None
                            &&& final(st).pos == old(st).pos
                            &&& a == seq![Message::Collected { kind, amount: 1 }]
                        } else {
                            &&& final(st).carrying == old(st).carrying
                            &&& advance_move(*old(w), old(st).id, old(st).pos, final(st).pos, old(w).base, obstacles@)
                            &&& advance_plan(*old(w), old(st).id, old(st).pos, final(st).pos, old(w).base, obstacles@, a)
                        }
                    },
                    None => match old(st).target {
                        Some(t) => if old(st).pos == t {
                            let res = old(w).resources@;
                            &&& final(st).pos == old(st).pos
                            &&& final(st).target is None
                            &&& if res.contains_key(t) && res[t].remaining > 0 {
                                &&& final(st).carrying == Some(res[t].kind)
                                &&& if res[t].remaining == 1 {
                                    &&& final(w).resources@ == res.remove(t)
                                    &&& a == seq![Message::Deplete { pos: t }]
                                } else {
                                    &&& final(w).resources@ == res.insert(
                                        t,
                                        Resource { kind: res[t].kind, remaining: (res[t].remaining - 1) as u32 },
                                    )
                                    &&& a == seq![
                                        Message::FoundResource {
                                            pos: t,
                                            kind: res[t].kind,
                                            qty: (res[t].remaining - 1) as u32,
                                        },
                                    ]
                                }
                            } else {
                                &&& final(st).carrying is None
                                &&& final(w).resources@ == res.remove(t)
                                &&& a == seq![Message::Deplete { pos: t }]
                            }
                        } else {
                            &&& final(w).resources == old(w).resources
                            &&& final(st).carrying is None
                            &&& final(st).target == old(st).target
                            &&& advance_move(*old(w), old(st).id, old(st).pos, final(st).pos, t, obstacles@)
                            &&& advance_plan(*old(w), old(st).id, old(st).pos, final(st).pos, t, obstacles@, a)
                        },
                        None => {
                            &&& final(w).resources == old(w).resources
                            &&& final(st).carrying is None
                            &&& final(st).target is None
                            &&& a.len() == 0
                            &&& (final(st).pos == old(st).pos <==> forall|k: int|
                                0 <= k < 4 ==> !old(w).free_for(#[trigger] neighbor(old(st).pos, k), old(st).id))
                            &&& final(st).pos != old(st).pos ==> adjacent(old(st).pos, final(st).pos)
                                && old(w).free_for(final(st).pos, old(st).id)
                        },
                    },
                }
            },
{
    let ghost w0 = *w;
    let ghost st0 = *st;
    let ghost m0 = msgs@;
    let base = w.base;
    if st.carrying.is_some() {
        if st.pos == base {
            let kind = st.carrying.unwrap();
            st.carrying = None;
            msgs.push(Message::Collected { kind, amount: 1 });
        } else {
            let mut p = st.pos;
            advance(w, st.id, &mut p, base, obstacles, msgs, rng);
            st.pos = p;
            proof {
                let a1 = choose|a1: Seq<Message>| msgs@ == m0 + a1 && advance_plan(w0, st0.id, st0.pos, p, base, obstacles@, a1);
                assert(msgs@.subrange(m0.len() as int, msgs@.len() as int) =~= a1);
            }
        }
    } else if let Some(t) = st.target {
        if st.pos == t {
            collect_here(w, t, st, msgs);
        } else {
            let mut p = st.pos;
            advance(w, st.id, &mut p, t, obstacles, msgs, rng);
            st.pos = p;
            proof {
                let a1 = choose|a1: Seq<Message>| msgs@ == m0 + a1 && advance_plan(w0, st0.id, st0.pos, p, t, obstacles@, a1);
                assert(msgs@.subrange(m0.len() as int, msgs@.len() as int) =~= a1);
            }
        }
    } else {
        match random_walk(w, st.id, st.pos, rng) {
            Some(np) => {
                st.pos = np;
                proof {
                    let k = choose|k: int| 0 <= k < 4 && np == #[trigger] neighbor(st0.pos, k) && w0.free_for(np, st0.id);
                    assert(adjacent(st0.pos, neighbor(st0.pos, k)));
                    assert(np != st0.pos);
                }
            },
            None => {},
        }
    }
    let ghost a = msgs@.subrange(m0.len() as int, msgs@.len() as int);
    proof {
        assert(msgs@ =~= m0 + a);
        assert(st.pos == st0.pos || w0.free_for(st.pos, st0.id));
    }
    let ghost ws = *w;
    let ghost ma = msgs@;
    sense(w, st.pos, msgs);
    let carrying = st.carrying;
    w.place_robot(st.id, st.pos, carrying);
    proof {
        lemma_sense_same(ws, *w, st.pos);
        assert(msgs@ == m0 + a + sense_all(*w, st.pos));
        assert(w.robots@ =~= w0.robots@.update(
            st0.id as int,
            RobotView { pos: st.pos, carrying: st.carrying, ..w0.robots@[st0.id as int] },
        ));
        if a.len() == 1 {
            assert(a =~= seq![a[0]]);
        }
    }
}

} // verus!
