//! Properties that hold across calls: how the shared knowledge evolves under
//! any sequence of messages, and how following the path search makes
//! progress.

use vstd::prelude::*;

use crate::knowledge::{KnownResource, available_to, knowledge_after};
use crate::map::{Tile, World, scatter_picks};
use crate::message::Message;
use crate::path::{first_step_of_shortest, passable, walk_to};
use crate::render::{Glyph, glyph_spec, last_robot_at};
use crate::robot::{advance_move, sense_all, sense_at, sense_prefix};
use crate::types::{Pos, ResourceKind, adjacent, neighbor};

verus! {

/// Depletion is permanent: a resource marked depleted stays depleted for as
/// long as it is known; a `Deplete` message forgets it altogether.
pub proof fn law_depletion_is_permanent(
    res: Map<Pos, KnownResource>,
    obs: Set<Pos>,
    msg: Message,
    p: Pos,
)
    requires
        res.contains_key(p),
        res[p].depleted,
    ensures
        knowledge_after(res, obs, msg).0.contains_key(p) ==> knowledge_after(res, obs, msg).0[p].depleted,
        knowledge_after(res, obs, msg).0.contains_key(p) <==> msg != (Message::Deplete { pos: p }),
{
}

/// Only depletion forgets a resource: every other message keeps each known
/// position in the knowledge.
pub proof fn law_only_depletion_forgets(
    res: Map<Pos, KnownResource>,
    obs: Set<Pos>,
    msg: Message,
    p: Pos,
)
    requires
        res.contains_key(p),
        msg != (Message::Deplete { pos: p }),
    ensures
        knowledge_after(res, obs, msg).0.contains_key(p),
{
}

/// A claim is never transferred: a resource claimed by `a` stays claimed by
/// `a` under every message, except that depletion forgets the resource.
pub proof fn law_claims_are_kept(
    res: Map<Pos, KnownResource>,
    obs: Set<Pos>,
    msg: Message,
    p: Pos,
    a: usize,
)
    requires
        res.contains_key(p),
        res[p].claimed_by == Some(a),
    ensures
        (knowledge_after(res, obs, msg).0.contains_key(p) && knowledge_after(res, obs, msg).0[p].claimed_by
            == Some(a)) || (msg == (Message::Deplete { pos: p }) && !knowledge_after(
            res,
            obs,
            msg,
        ).0.contains_key(p)),
{
}

/// The first claim wins: after collector `a` claims a resource, no other
/// collector `b` may target it, whoever claimed first.
pub proof fn law_claim_excludes_others(
    res: Map<Pos, KnownResource>,
    obs: Set<Pos>,
    p: Pos,
    a: usize,
    b: usize,
)
    requires
        res.contains_key(p),
        res[p].claimed_by is None || res[p].claimed_by == Some(a),
        a != b,
    ensures
        !available_to(knowledge_after(res, obs, Message::Claim { id: a, pos: p }).0[p], b),
{
}

/// A depleted resource leaves the knowledge: after `Deplete`, the position is
/// no known resource, so no collector is offered it; nothing else changes.
pub proof fn law_depleted_is_forgotten(res: Map<Pos, KnownResource>, obs: Set<Pos>, p: Pos)
    ensures
        !knowledge_after(res, obs, Message::Deplete { pos: p }).0.contains_key(p),
        knowledge_after(res, obs, Message::Deplete { pos: p }).0 == res.remove(p),
        knowledge_after(res, obs, Message::Deplete { pos: p }).1 == obs,
{
}

/// A resource report overrides an obstacle report for the same cell: after
/// `FoundObstacle` then `FoundResource` at `p`, `p` is a known resource and
/// no longer a known obstacle.
pub proof fn law_resource_report_clears_obstacle(
    res: Map<Pos, KnownResource>,
    obs: Set<Pos>,
    p: Pos,
    kind: ResourceKind,
    qty: u32,
)
    ensures
        ({
            let k1 = knowledge_after(res, obs, Message::FoundObstacle { pos: p });
            let k2 = knowledge_after(k1.0, k1.1, Message::FoundResource { pos: p, kind, qty });
            &&& k2.0.contains_key(p)
            &&& !k2.1.contains(p)
            &&& k2.0[p].qty == qty
            &&& k2.0[p].kind == kind
        }),
{
}

/// The shortest walks from `start` to `goal` have `len` cells.
pub open spec fn shortest_len(start: Pos, w: int, h: int, goal: Pos, bl: Set<Pos>, len: int) -> bool {
    &&& exists|s: Seq<Pos>| #[trigger] walk_to(s, start, w, h, goal, bl) && s.len() == len
    &&& forall|t: Seq<Pos>| #[trigger] walk_to(t, start, w, h, goal, bl) ==> len <= t.len()
}

/// Following the path search makes progress: from the step it returns, the
/// goal is exactly one step closer (the walk is shorter by one cell), so
/// repeated steps reach the goal.
pub proof fn law_next_step_shortens(n: Pos, start: Pos, w: int, h: int, goal: Pos, bl: Set<Pos>, len: int)
    requires
        first_step_of_shortest(n, start, w, h, goal, bl),
        shortest_len(start, w, h, goal, bl, len),
    ensures
        shortest_len(n, w, h, goal, bl, len - 1),
{
    let s = choose|s: Seq<Pos>|
        #[trigger] walk_to(s, start, w, h, goal, bl) && s.len() >= 2 && s[1] == n && forall|t: Seq<Pos>|
            #[trigger] walk_to(t, start, w, h, goal, bl) ==> s.len() <= t.len();
    let s0 = choose|s0: Seq<Pos>| #[trigger] walk_to(s0, start, w, h, goal, bl) && s0.len() == len;
    assert(s.len() <= s0.len());
    assert(s0.len() <= s.len());
    let tail = s.subrange(1, s.len() as int);
    assert forall|i: int| 1 <= i < tail.len() implies adjacent(tail[i - 1], #[trigger] tail[i])
        && passable(tail[i], w, h, goal, bl) by {
        assert(tail[i] == s[i + 1]);
        assert(tail[i - 1] == s[i]);
    }
    assert(tail[tail.len() - 1] == s[s.len() - 1]);
    assert(walk_to(tail, n, w, h, goal, bl));
    assert forall|t: Seq<Pos>| #[trigger] walk_to(t, n, w, h, goal, bl) implies len - 1 <= t.len() by {
        let u = seq![start] + t;
        assert(u[0] == start);
        assert forall|i: int| 1 <= i < u.len() implies adjacent(u[i - 1], #[trigger] u[i])
            && passable(u[i], w, h, goal, bl) by {
            if i == 1 {
                assert(u[1] == t[0]);
                assert(s[1] == n);
                assert(adjacent(s[0], s[1]));
                assert(passable(s[1], w, h, goal, bl));
            } else {
                assert(u[i] == t[i - 1]);
                assert(u[i - 1] == t[i - 2]);
            }
        }
        assert(u[u.len() - 1] == t[t.len() - 1]);
        assert(walk_to(u, start, w, h, goal, bl));
    }
}

/// The cell a message is about, if any.
pub open spec fn message_cell(msg: Message) -> Option<Pos> {
    match msg {
        Message::FoundResource { pos, .. } => Some(pos),
        Message::FoundObstacle { pos } => Some(pos),
        Message::Claim { pos, .. } => Some(pos),
        Message::Deplete { pos } => Some(pos),
        Message::Collected { .. } => None,
    }
}

/// A message about one cell changes the knowledge of no other cell: every
/// other cell stays a known obstacle exactly when it was one, and keeps its
/// known resource record (or its absence).
pub proof fn law_message_is_local(res: Map<Pos, KnownResource>, obs: Set<Pos>, msg: Message, q: Pos)
    requires
        message_cell(msg) != Some(q),
    ensures
        knowledge_after(res, obs, msg).1.contains(q) == obs.contains(q),
        knowledge_after(res, obs, msg).0.contains_key(q) == res.contains_key(q),
        res.contains_key(q) ==> knowledge_after(res, obs, msg).0[q] == res[q],
{
}

/// A report names its own cell correctly: after `FoundObstacle` the cell is a
/// known obstacle; after `FoundResource` it is no known obstacle and is a
/// known resource with the reported kind and quantity.
pub proof fn law_report_updates_its_cell(
    res: Map<Pos, KnownResource>,
    obs: Set<Pos>,
    p: Pos,
    kind: ResourceKind,
    qty: u32,
)
    ensures
        knowledge_after(res, obs, Message::FoundObstacle { pos: p }).1.contains(p),
        !knowledge_after(res, obs, Message::FoundResource { pos: p, kind, qty }).1.contains(p),
        knowledge_after(res, obs, Message::FoundResource { pos: p, kind, qty }).0.contains_key(p),
        knowledge_after(res, obs, Message::FoundResource { pos: p, kind, qty }).0[p].kind == kind,
        knowledge_after(res, obs, Message::FoundResource { pos: p, kind, qty }).0[p].qty == qty,
{
}

/// A cell with no robot on it that holds a deposit shows the deposit's kind:
/// crystal exactly when the deposit is crystal, energy exactly when it is
/// energy.
pub proof fn law_glyph_shows_deposit_kind(w: World, p: Pos)
    requires
        forall|j: int| 0 <= j < w.robots@.len() ==> #[trigger] w.robots@[j].pos != p,
        w.resources@.contains_key(p),
    ensures
        glyph_spec(w, p) == Glyph::Crystal <==> w.resources@[p].kind == ResourceKind::Crystal,
        glyph_spec(w, p) == Glyph::Energy <==> w.resources@[p].kind == ResourceKind::Energy,
{
    assert(!exists|j: int| #[trigger] last_robot_at(w.robots@, p, j));
}

/// A cell with neither robot nor deposit shows its terrain: an obstacle, the
/// base or plain ground, exactly as the tile says.
pub proof fn law_glyph_shows_terrain(w: World, p: Pos)
    requires
        forall|j: int| 0 <= j < w.robots@.len() ==> #[trigger] w.robots@[j].pos != p,
        !w.resources@.contains_key(p),
    ensures
        glyph_spec(w, p) == Glyph::Obstacle <==> w.tile_at(p) == Tile::Obstacle,
        glyph_spec(w, p) == Glyph::Base <==> w.tile_at(p) == Tile::Base,
        glyph_spec(w, p) == Glyph::Empty <==> w.tile_at(p) == Tile::Empty,
{
    assert(!exists|j: int| #[trigger] last_robot_at(w.robots@, p, j));
}

/// A cell with a robot on it shows a robot, of the kind of the last robot
/// listed there.
pub proof fn law_glyph_shows_robot(w: World, p: Pos, j: int)
    requires
        0 <= j < w.robots@.len(),
        w.robots@[j].pos == p,
        forall|k: int| j < k < w.robots@.len() ==> #[trigger] w.robots@[k].pos != p,
    ensures
        glyph_spec(w, p) == Glyph::Scout <==> w.robots@[j].kind == crate::types::RobotKind::Scout,
        glyph_spec(w, p) == Glyph::Collector <==> w.robots@[j].kind == crate::types::RobotKind::Collector,
{
    assert(last_robot_at(w.robots@, p, j));
    assert forall|j2: int| #[trigger] last_robot_at(w.robots@, p, j2) implies j2 == j by {
        if j2 < j {
            assert(w.robots@[j].pos != p);
        } else if j2 > j {
            assert(w.robots@[j2].pos != p);
        }
    }
}

proof fn lemma_contains_left(a: Seq<Message>, b: Seq<Message>, x: Message)
    requires
        a.contains(x),
    ensures
        (a + b).contains(x),
{
    let i = choose|i: int| 0 <= i < a.len() && a[i] == x;
    assert((a + b)[i] == x);
}

proof fn lemma_contains_right(a: Seq<Message>, b: Seq<Message>, x: Message)
    requires
        b.contains(x),
    ensures
        (a + b).contains(x),
{
    let i = choose|i: int| 0 <= i < b.len() && b[i] == x;
    assert((a + b)[a.len() + i] == x);
}

/// Every report about neighbour `k` is among the reports for the four
/// neighbours.
proof fn lemma_sense_all_covers(w: World, pos: Pos, k: int, x: Message)
    requires
        0 <= k < 4,
        sense_at(w, neighbor(pos, k)).contains(x),
    ensures
        sense_all(w, pos).contains(x),
{
    reveal_with_fuel(sense_prefix, 5);
    let s0 = sense_at(w, neighbor(pos, 0));
    let s1 = sense_at(w, neighbor(pos, 1));
    let s2 = sense_at(w, neighbor(pos, 2));
    let s3 = sense_at(w, neighbor(pos, 3));
    assert(sense_prefix(w, pos, 0) == Seq::<Message>::empty());
    assert(sense_prefix(w, pos, 1) == sense_prefix(w, pos, 0) + s0);
    assert(sense_prefix(w, pos, 2) == sense_prefix(w, pos, 1) + s1);
    assert(sense_prefix(w, pos, 3) == sense_prefix(w, pos, 2) + s2);
    assert(sense_all(w, pos) == sense_prefix(w, pos, 3) + s3);
    if k == 3 {
        lemma_contains_right(sense_prefix(w, pos, 3), s3, x);
    } else {
        if k == 2 {
            lemma_contains_right(sense_prefix(w, pos, 2), s2, x);
        } else {
            if k == 1 {
                lemma_contains_right(sense_prefix(w, pos, 1), s1, x);
            } else {
                lemma_contains_right(sense_prefix(w, pos, 0), s0, x);
                lemma_contains_left(sense_prefix(w, pos, 1), s1, x);
            }
            lemma_contains_left(sense_prefix(w, pos, 2), s2, x);
        }
        lemma_contains_left(sense_prefix(w, pos, 3), s3, x);
    }
}

/// All four neighbours are sensed: each one on the map that is an obstacle
/// is reported as an obstacle, and each one that holds a deposit is reported
/// with its kind and the units left.
pub proof fn law_sense_reports_every_neighbor(w: World, pos: Pos, k: int)
    requires
        0 <= k < 4,
        w.in_bounds_spec(neighbor(pos, k)),
    ensures
        w.obstacle_at(neighbor(pos, k)) ==> sense_all(w, pos).contains(
            Message::FoundObstacle { pos: neighbor(pos, k) },
        ),
        !w.obstacle_at(neighbor(pos, k)) && w.resources@.contains_key(neighbor(pos, k)) ==> sense_all(
            w,
            pos,
        ).contains(
            Message::FoundResource {
                pos: neighbor(pos, k),
                kind: w.resources@[neighbor(pos, k)].kind,
                qty: w.resources@[neighbor(pos, k)].remaining,
            },
        ),
{
    let n = neighbor(pos, k);
    if w.obstacle_at(n) {
        assert(sense_at(w, n)[0] == Message::FoundObstacle { pos: n });
        lemma_sense_all_covers(w, pos, k, Message::FoundObstacle { pos: n });
    } else if w.resources@.contains_key(n) {
        let x = Message::FoundResource { pos: n, kind: w.resources@[n].kind, qty: w.resources@[n].remaining };
        assert(sense_at(w, n)[0] == x);
        lemma_sense_all_covers(w, pos, k, x);
    }
}

/// Every report is true of a neighbour: it names one of the four neighbours,
/// which is on the map, and an obstacle report names an obstacle while a
/// resource report names a deposit with its kind and units left.
pub proof fn law_sense_reports_are_true(w: World, pos: Pos, x: Message)
    requires
        sense_all(w, pos).contains(x),
    ensures
        exists|k: int|
            0 <= k < 4 && #[trigger] neighbor(pos, k) == message_cell(x)->0 && w.in_bounds_spec(
                neighbor(pos, k),
            ) && match x {
                Message::FoundObstacle { pos: q } => w.obstacle_at(q),
                Message::FoundResource { pos: q, kind, qty } => !w.obstacle_at(q) && w.resources@.contains_key(q)
                    && w.resources@[q].kind == kind && w.resources@[q].remaining == qty,
                _ => false,
            },
{
    reveal_with_fuel(sense_prefix, 5);
    let s0 = sense_at(w, neighbor(pos, 0));
    let s1 = sense_at(w, neighbor(pos, 1));
    let s2 = sense_at(w, neighbor(pos, 2));
    let s3 = sense_at(w, neighbor(pos, 3));
    let all = sense_all(w, pos);
    assert(all == s0 + s1 + s2 + s3);
    let i = choose|i: int| 0 <= i < all.len() && all[i] == x;
    let k: int = if i < s0.len() {
        0
    } else if i < s0.len() + s1.len() {
        1
    } else if i < s0.len() + s1.len() + s2.len() {
        2
    } else {
        3
    };
    let n = neighbor(pos, k);
    let sk = sense_at(w, n);
    assert(sk.len() <= 1);
    assert(sk.len() == 1 && sk[0] == x);
}

/// A robot that moves never lands on a cell where another robot stands,
/// whatever that robot's kind, nor on an obstacle or off the map.
pub proof fn law_move_avoids_robots(
    w: World,
    id: usize,
    from: Pos,
    to: Pos,
    goal: Pos,
    obstacles: Set<Pos>,
    j: int,
)
    requires
        advance_move(w, id, from, to, goal, obstacles),
        to != from,
        0 <= j < w.robots@.len(),
        j != id,
    ensures
        w.robots@[j].pos != to,
        w.in_bounds_spec(to),
        !w.obstacle_at(to),
{
    assert(w.free_for(to, id));
    if w.robots@[j].pos == to {
        assert(w.occupied_by_other(to, id));
    }
}

/// A cell counts as occupied for robot `id` exactly when some other robot,
/// of any kind, stands on it.
pub proof fn law_occupied_means_another_robot(w: World, p: Pos, id: usize, j: int)
    requires
        0 <= j < w.robots@.len(),
        j != id,
        w.robots@[j].pos == p,
    ensures
        w.occupied_by_other(p, id),
        !w.free_for(p, id),
{
}

/// Scattering misses no chance: while fewer than `count` deposits are
/// placed, every drawn cell where a deposit may go receives one.
pub proof fn law_scatter_uses_every_free_draw(w: World, count: int, log: Seq<Pos>, i: int)
    requires
        scatter_picks(w, count, log).len() < count,
        0 <= i < log.len(),
        w.can_place_spec(log[i]),
    ensures
        scatter_picks(w, count, log).contains(log[i]),
    decreases log.len(),
{
    let prev = scatter_picks(w, count, log.drop_last());
    let picks = scatter_picks(w, count, log);
    assert(prev.len() <= picks.len());
    if i < log.len() - 1 {
        assert(log.drop_last()[i] == log[i]);
        law_scatter_uses_every_free_draw(w, count, log.drop_last(), i);
        let j = choose|j: int| 0 <= j < prev.len() && prev[j] == log[i];
        assert(picks[j] == log[i]);
    } else if prev.contains(log[i]) {
        let j = choose|j: int| 0 <= j < prev.len() && prev[j] == log[i];
        assert(picks[j] == log[i]);
    } else {
        assert(picks[picks.len() - 1] == log[i]);
    }
}

/// Scattering places only where it may, never twice on one cell, never more
/// than `count`, and only on drawn cells.
pub proof fn law_scatter_picks_are_sound(w: World, count: int, log: Seq<Pos>)
    requires
        0 <= count,
    ensures
        scatter_picks(w, count, log).len() <= count,
        scatter_picks(w, count, log).no_duplicates(),
        forall|j: int|
            0 <= j < scatter_picks(w, count, log).len() ==> w.can_place_spec(
                #[trigger] scatter_picks(w, count, log)[j],
            ) && log.contains(scatter_picks(w, count, log)[j]),
    decreases log.len(),
{
    if log.len() > 0 {
        let prev = scatter_picks(w, count, log.drop_last());
        law_scatter_picks_are_sound(w, count, log.drop_last());
        let picks = scatter_picks(w, count, log);
        assert forall|j: int| 0 <= j < picks.len() implies w.can_place_spec(#[trigger] picks[j]) && log.contains(
            picks[j],
        ) by {
            if j < prev.len() {
                assert(picks[j] == prev[j]);
                let m = choose|m: int| 0 <= m < log.drop_last().len() && log.drop_last()[m] == prev[j];
                assert(log[m] == prev[j]);
            } else {
                assert(picks[j] == log[log.len() - 1]);
            }
        }
        if picks.len() > prev.len() {
            assert forall|a: int, b: int| 0 <= a < picks.len() && 0 <= b < picks.len() && a != b implies picks[a]
                != picks[b] by {
                if a < prev.len() && b < prev.len() {
                    assert(prev[a] != prev[b]);
                } else if a < prev.len() {
                    assert(prev.contains(prev[a]));
                } else {
                    assert(prev.contains(prev[b]));
                }
            }
        }
    }
}

} // verus!
