//! Breadth-first pathfinding over the obstacles that are known. The search
//! gives the next step towards the goal, or `None` when no known path exists.

use vstd::prelude::*;
use vstd::set_lib::{lemma_int_range, set_int_range};

use crate::map::{lemma_index_in_range, lemma_index_injective};
use crate::posmap::PosSet;
use crate::types::{Pos, adjacent, has_neighbors, lemma_adjacent_iff_neighbor, neighbor};

verus! {

/// `p` lies on the `w` by `h` grid.
pub open spec fn in_grid(p: Pos, w: int, h: int) -> bool {
    0 <= p.x < w && 0 <= p.y < h
}

/// A walk may enter `p`: it is on the grid and either is the goal or is not
/// a known obstacle. The goal stays enterable even when it is listed.
pub open spec fn passable(p: Pos, w: int, h: int, goal: Pos, bl: Set<Pos>) -> bool {
    in_grid(p, w, h) && (p == goal || !bl.contains(p))
}

/// `s` is a walk from `start`: each cell after the first is passable and
/// adjacent to the one before it.
pub open spec fn is_walk(s: Seq<Pos>, start: Pos, w: int, h: int, goal: Pos, bl: Set<Pos>) -> bool {
    &&& s.len() >= 1
    &&& s[0] == start
    &&& forall|i: int|
        1 <= i < s.len() ==> adjacent(s[i - 1], #[trigger] s[i]) && passable(s[i], w, h, goal, bl)
}

/// `s` is a walk from `start` to `goal`.
pub open spec fn walk_to(s: Seq<Pos>, start: Pos, w: int, h: int, goal: Pos, bl: Set<Pos>) -> bool {
    is_walk(s, start, w, h, goal, bl) && s.last() == goal
}

/// Some walk leads from `start` to `goal`.
pub open spec fn reachable(start: Pos, w: int, h: int, goal: Pos, bl: Set<Pos>) -> bool {
    exists|s: Seq<Pos>| #[trigger] walk_to(s, start, w, h, goal, bl)
}

/// `n` is the second cell of a shortest walk from `start` to `goal`.
pub open spec fn first_step_of_shortest(
    n: Pos,
    start: Pos,
    w: int,
    h: int,
    goal: Pos,
    bl: Set<Pos>,
) -> bool {
    exists|s: Seq<Pos>|
        #[trigger] walk_to(s, start, w, h, goal, bl) && s.len() >= 2 && s[1] == n && forall|
            t: Seq<Pos>,
        | #[trigger] walk_to(t, start, w, h, goal, bl) ==> s.len() <= t.len()
}

/// Row-major index of a grid cell.
pub open spec fn cell(p: Pos, w: int) -> int {
    p.y * w + p.x
}

/// The number of cells of a `w` by `h` grid (none when a side is not
/// positive).
pub open spec fn cells(w: int, h: int) -> int {
    if w > 0 && h > 0 {
        w * h
    } else {
        0
    }
}

proof fn lemma_cell(p: Pos, w: int, h: int)
    requires
        in_grid(p, w, h),
    ensures
        0 <= cell(p, w) < cells(w, h),
{
    lemma_index_in_range(p.x as int, p.y as int, w, h);
}

proof fn lemma_cell_distinct(p: Pos, q: Pos, w: int, h: int)
    requires
        in_grid(p, w, h),
        in_grid(q, w, h),
        p != q,
    ensures
        cell(p, w) != cell(q, w),
{
    if cell(p, w) == cell(q, w) {
        lemma_index_injective(p.x as int, p.y as int, q.x as int, q.y as int, w);
    }
}

/// A prefix of a walk is a walk.
proof fn lemma_walk_prefix(s: Seq<Pos>, k: int, start: Pos, w: int, h: int, goal: Pos, bl: Set<Pos>)
    requires
        is_walk(s, start, w, h, goal, bl),
        1 <= k <= s.len(),
    ensures
        is_walk(s.take(k), start, w, h, goal, bl),
{
    let t = s.take(k);
    assert forall|i: int| 1 <= i < t.len() implies adjacent(t[i - 1], #[trigger] t[i]) && passable(
        t[i],
        w,
        h,
        goal,
        bl,
    ) by {
        assert(t[i] == s[i]);
        assert(t[i - 1] == s[i - 1]);
    }
}

fn cell_index(p: Pos, w: i32, h: i32) -> (i: usize)
    requires
        in_grid(p, w as int, h as int),
        cells(w as int, h as int) <= usize::MAX,
    ensures
        i == cell(p, w as int),
        i < cells(w as int, h as int),
{
    proof {
        lemma_cell(p, w as int, h as int);
        assert(p.y * w <= p.y * w + p.x);
    }
    (p.y as usize) * (w as usize) + (p.x as usize)
}

/// Marks, cell by cell, which grid cells are listed in `blocked`.
fn blocked_cells(w: i32, h: i32, n: usize, blocked: &PosSet) -> (g: Vec<bool>)
    requires
        n == cells(w as int, h as int),
        n <= usize::MAX,
    ensures
        g@.len() == n,
        forall|p: Pos| in_grid(p, w as int, h as int) ==> g@[cell(p, w as int)] == blocked@.contains(p),
{
    let mut g: Vec<bool> = Vec::new();
    let mut i: usize = 0;
    while i < n
        invariant
            g@.len() == i,
            i <= n,
            forall|j: int| 0 <= j < i ==> !g@[j],
        decreases n - i,
    {
        g.push(false);
        i = i + 1;
    }
    proof {
        assert forall|p: Pos| in_grid(p, w as int, h as int) implies !g@[cell(p, w as int)] by {
            lemma_cell(p, w as int, h as int);
        }
    }
    let m = blocked.len();
    let mut k: usize = 0;
    while k < m
        invariant
            m == blocked.items().len(),
            k <= m,
            g@.len() == n,
            n == cells(w as int, h as int),
            n <= usize::MAX,
            forall|p: Pos|
                in_grid(p, w as int, h as int) ==> (g@[cell(p, w as int)] <==> exists|j: int|
                    0 <= j < k && blocked.items()[j] == p),
        decreases m - k,
    {
        let p = blocked.at(k);
        if p.x >= 0 && p.y >= 0 && p.x < w && p.y < h {
            let c = cell_index(p, w, h);
            let ghost before = g@;
            g.set(c, true);
            proof {
                assert forall|q: Pos| in_grid(q, w as int, h as int) implies (g@[cell(q, w as int)]
                    <==> exists|j: int| 0 <= j < k + 1 && blocked.items()[j] == q) by {
                    lemma_cell(q, w as int, h as int);
                    if q != p {
                        lemma_cell_distinct(q, p, w as int, h as int);
                        assert(g@[cell(q, w as int)] == before[cell(q, w as int)]);
                        if exists|j: int| 0 <= j < k + 1 && blocked.items()[j] == q {
                            let j = choose|j: int| 0 <= j < k + 1 && blocked.items()[j] == q;
                            assert(j < k);
                        }
                    } else {
                        assert(blocked.items()[k as int] == q);
                    }
                }
            }
        } else {
            proof {
                assert forall|q: Pos| in_grid(q, w as int, h as int) implies (g@[cell(q, w as int)]
                    <==> exists|j: int| 0 <= j < k + 1 && blocked.items()[j] == q) by {
                    if exists|j: int| 0 <= j < k + 1 && blocked.items()[j] == q {
                        let j = choose|j: int| 0 <= j < k + 1 && blocked.items()[j] == q;
                        if j == k {
                            assert(q == p);
                        }
                    }
                }
            }
        }
        k = k + 1;
    }
    proof {
        assert forall|p: Pos| in_grid(p, w as int, h as int) implies g@[cell(p, w as int)]
            == blocked@.contains(p) by {
            if blocked@.contains(p) {
                let j = choose|j: int| 0 <= j < blocked.items().len() && blocked.items()[j] == p;
                assert(0 <= j < m && blocked.items()[j] == p);
            }
        }
    }
    g
}

/// The search tree: cell `q[i]` was reached from `q[par[i]]`, at distance
/// `d[i]` from `start`; no cell is discovered twice.
spec fn tree_ok(
    q: Seq<Pos>,
    par: Seq<usize>,
    d: Seq<int>,
    start: Pos,
    w: int,
    h: int,
    goal: Pos,
    bl: Set<Pos>,
) -> bool {
    &&& q.len() >= 1
    &&& par.len() == q.len()
    &&& d.len() == q.len()
    &&& q[0] == start
    &&& d[0] == 0
    &&& par[0] == 0
    &&& forall|i: int|
        1 <= i < q.len() ==> #[trigger] par[i] < i && adjacent(q[par[i] as int], q[i]) && passable(
            q[i],
            w,
            h,
            goal,
            bl,
        ) && d[i] == d[par[i] as int] + 1
    &&& forall|i: int, j: int| 0 <= i < j < q.len() ==> #[trigger] q[i] != #[trigger] q[j]
}

/// The grid records which cells are discovered and where they sit in `q`.
spec fn grid_ok(q: Seq<Pos>, seen: Seq<bool>, slot: Seq<usize>, w: int, h: int) -> bool {
    &&& seen.len() == cells(w, h)
    &&& slot.len() == cells(w, h)
    &&& forall|p: Pos|
        in_grid(p, w, h) && #[trigger] seen[cell(p, w)] ==> slot[cell(p, w)] < q.len() && q[slot[cell(
            p,
            w,
        ) as int] as int] == p
    &&& forall|i: int| 0 <= i < q.len() && in_grid(q[i], w, h) ==> #[trigger] seen[cell(q[i], w)]
}

/// Distances never decrease along `q`; cells before `head` are at most at
/// level `lev`, the cell at `head` is at level `lev`, none is beyond `lev + 1`.
spec fn levels_ok(d: Seq<int>, head: int, lev: int) -> bool {
    &&& 0 <= head <= d.len()
    &&& forall|i: int, j: int| 0 <= i < j < d.len() ==> #[trigger] d[i] <= #[trigger] d[j]
    &&& forall|i: int| 0 <= i < d.len() ==> 0 <= #[trigger] d[i] <= lev + 1
    &&& forall|i: int| 0 <= i < head ==> #[trigger] d[i] <= lev
    &&& head < d.len() ==> d[head] == lev
}

/// Every passable neighbour of the first `upto` cells of `q` is discovered,
/// at most one step further from `start`.
spec fn expanded(
    q: Seq<Pos>,
    d: Seq<int>,
    seen: Seq<bool>,
    slot: Seq<usize>,
    upto: int,
    w: int,
    h: int,
    goal: Pos,
    bl: Set<Pos>,
) -> bool {
    forall|i: int, v: Pos|
        0 <= i < upto && #[trigger] adjacent(q[i], v) && passable(v, w, h, goal, bl) ==> seen[cell(
            v,
            w,
        )] && d[slot[cell(v, w)] as int] <= d[i] + 1
}

/// Every cell that a walk of at most `lev` steps reaches is discovered, at a
/// distance no greater than the walk's length.
spec fn layers_found(
    d: Seq<int>,
    seen: Seq<bool>,
    slot: Seq<usize>,
    lev: int,
    start: Pos,
    w: int,
    h: int,
    goal: Pos,
    bl: Set<Pos>,
) -> bool {
    forall|s: Seq<Pos>|
        #[trigger] is_walk(s, start, w, h, goal, bl) && 2 <= s.len() <= lev + 1 ==> seen[cell(
            s.last(),
            w,
        )] && d[slot[cell(s.last(), w)] as int] <= s.len() - 1
}

/// `n` copies of `x`.
fn fill<T: Copy>(n: usize, x: T) -> (v: Vec<T>)
    ensures
        v@.len() == n,
        forall|i: int| 0 <= i < n ==> v@[i] == x,
{
    let mut v: Vec<T> = Vec::new();
    let mut i: usize = 0;
    while i < n
        invariant
            v@.len() == i,
            i <= n,
            forall|j: int| 0 <= j < i ==> v@[j] == x,
        decreases n - i,
    {
        v.push(x);
        i = i + 1;
    }
    v
}

/// Each discovered cell `q[i]` (other than `start`) records in `r[i]` the
/// number of the first move on its search-tree path from `start`; cells of
/// one level are queued in non-decreasing order of that number.
#[verifier::opaque]
spec fn first_moves_ok(q: Seq<Pos>, par: Seq<usize>, d: Seq<int>, r: Seq<int>, start: Pos) -> bool {
    &&& r.len() == q.len()
    &&& forall|i: int|
        1 <= i < q.len() ==> 0 <= #[trigger] r[i] < 4 && (d[i] == 1 ==> q[i] == neighbor(start, r[i])) && (
        d[i] >= 2 ==> r[i] == r[par[i] as int])
    &&& forall|i: int, j: int| 1 <= i < j < q.len() && d[i] == d[j] ==> #[trigger] r[i] <= #[trigger] r[j]
}

/// No shortest walk from `start` to a discovered cell begins with a move
/// numbered below the one its search-tree path begins with.
#[verifier::opaque]
spec fn first_moves_least(
    q: Seq<Pos>,
    d: Seq<int>,
    r: Seq<int>,
    start: Pos,
    w: int,
    h: int,
    goal: Pos,
    bl: Set<Pos>,
) -> bool {
    forall|i: int, s: Seq<Pos>|
        #![trigger is_walk(s, start, w, h, goal, bl), q[i]]
        1 <= i < q.len() && is_walk(s, start, w, h, goal, bl) && s.last() == q[i] && s.len() == d[i] + 1
            ==> forall|j: int| 0 <= j < r[i] ==> s[1] != #[trigger] neighbor(start, j)
}

/// A cell `v` about to be discovered from `q[head]` by move `k`: no shortest
/// walk to it begins with a move numbered below the one it inherits.
#[verifier::spinoff_prover]
#[verifier::rlimit(60)]
proof fn lemma_first_move_of_new(
    q: Seq<Pos>,
    par: Seq<usize>,
    d: Seq<int>,
    r: Seq<int>,
    seen: Seq<bool>,
    slot: Seq<usize>,
    head: int,
    lev: int,
    v: Pos,
    k: int,
    start: Pos,
    w: int,
    h: int,
    goal: Pos,
    bl: Set<Pos>,
    s: Seq<Pos>,
    j: int,
)
    requires
        0 <= head < q.len(),
        d.len() == q.len(),
        d[0] == 0,
        head == 0 ==> q[0] == start,
        head > 0 ==> lev >= 1,
        has_neighbors(start),
        grid_ok(q, seen, slot, w, h),
        levels_ok(d, head, lev),
        expanded(q, d, seen, slot, head, w, h, goal, bl),
        layers_found(d, seen, slot, lev, start, w, h, goal, bl),
        first_moves_ok(q, par, d, r, start),
        first_moves_least(q, d, r, start, w, h, goal, bl),
        in_grid(v, w, h),
        !seen[cell(v, w)],
        0 <= k < 4,
        v == neighbor(q[head], k),
        is_walk(s, start, w, h, goal, bl),
        s.last() == v,
        s.len() == lev + 2,
        0 <= j < (if head == 0 {
            k
        } else {
            r[head]
        }),
    ensures
        s[1] != neighbor(start, j),
{
    reveal(first_moves_ok);
    reveal(first_moves_least);
    if head == 0 {
        assert(lev == 0);
        assert(s[1] == s.last());
        assert(s[1] == neighbor(start, k));
        assert(neighbor(start, j) != neighbor(start, k));
    } else {
        let s0 = s.take(s.len() - 1);
        lemma_walk_prefix(s, s.len() - 1, start, w, h, goal, bl);
        assert(is_walk(s0, start, w, h, goal, bl));
        let u = s0.last();
        assert(u == s[s.len() - 2]);
        assert(seen[cell(u, w)]);
        let jj = slot[cell(u, w)] as int;
        assert(q[jj] == u);
        assert(d[jj] <= lev);
        assert(adjacent(s[s.len() - 2], s[s.len() - 1]));
        assert(passable(s[s.len() - 1], w, h, goal, bl));
        if jj < head {
            assert(adjacent(q[jj], v));
            assert(seen[cell(v, w)]);
        }
        assert(d[head] <= d[jj]);
        assert(jj >= 1);
        if jj > head {
            assert(r[head] <= r[jj]);
        }
        assert(s0[1] == s[1]);
        assert(s0.last() == q[jj] && s0.len() == d[jj] + 1);
        assert(s0[1] != neighbor(start, j));
    }
}

/// Breadth-first search from `start`, over the cells that `blk` does not mark
/// (the goal is always enterable). Stops when the goal is expanded or when
/// nothing is left to expand.
#[verifier::rlimit(100)]
fn explore(
    start: Pos,
    goal: Pos,
    w: i32,
    h: i32,
    n: usize,
    blk: &Vec<bool>,
    Ghost(bl): Ghost<Set<Pos>>,
) -> (res: (Vec<Pos>, Vec<usize>, Vec<bool>, Vec<usize>, Ghost<Seq<int>>, Ghost<int>, Ghost<Seq<int>>))
    requires
        has_neighbors(start),
        start != goal,
        n == cells(w as int, h as int),
        n <= usize::MAX,
        blk@.len() == n,
        forall|p: Pos| in_grid(p, w as int, h as int) ==> blk@[cell(p, w as int)] == bl.contains(p),
    ensures
        ({
            let (q, par, seen, slot, d, lev, r) = res;
            &&& tree_ok(q@, par@, d@, start, w as int, h as int, goal, bl)
            &&& first_moves_ok(q@, par@, d@, r@, start)
            &&& first_moves_least(q@, d@, r@, start, w as int, h as int, goal, bl)
            &&& grid_ok(q@, seen@, slot@, w as int, h as int)
            &&& layers_found(d@, seen@, slot@, lev@, start, w as int, h as int, goal, bl)
            &&& forall|i: int| 0 <= i < d@.len() ==> 0 <= #[trigger] d@[i] <= lev@ + 1
            &&& (in_grid(goal, w as int, h as int) && seen@[cell(goal, w as int)]) || expanded(
                q@,
                d@,
                seen@,
                slot@,
                q@.len() as int,
                w as int,
                h as int,
                goal,
                bl,
            )
        }),
{
    let ghost wi = w as int;
    let ghost hi = h as int;
    let mut queue: Vec<Pos> = Vec::new();
    queue.push(start);
    let mut par: Vec<usize> = Vec::new();
    par.push(0);
    let mut seen: Vec<bool> = fill(n, false);
    let mut slot: Vec<usize> = fill(n, 0);
    let ghost mut d: Seq<int> = seq![0int];
    let ghost mut r: Seq<int> = seq![0int];
    let ghost mut lev: int = 0;
    let ghost mut unseen: Set<int> = set_int_range(0, n as int);
    proof {
        lemma_int_range(0, n as int);
    }
    if start.x >= 0 && start.y >= 0 && start.x < w && start.y < h {
        let c = cell_index(start, w, h);
        seen.set(c, true);
        slot.set(c, 0);
        proof {
            unseen = unseen.remove(c as int);
            assert forall|p: Pos| in_grid(p, wi, hi) && #[trigger] seen@[cell(p, wi)] implies slot@[cell(
                p,
                wi,
            )] < queue@.len() && queue@[slot@[cell(p, wi)] as int] == p by {
                lemma_cell(p, wi, hi);
                if p != start {
                    lemma_cell_distinct(p, start, wi, hi);
                }
            }
        }
    } else {
        proof {
            assert forall|p: Pos| in_grid(p, wi, hi) && #[trigger] seen@[cell(p, wi)] implies slot@[cell(
                p,
                wi,
            )] < queue@.len() && queue@[slot@[cell(p, wi)] as int] == p by {
                lemma_cell(p, wi, hi);
            }
        }
    }
    proof {
        reveal(first_moves_ok);
        reveal(first_moves_least);
        assert forall|s: Seq<Pos>|
            #[trigger] is_walk(s, start, wi, hi, goal, bl) && 2 <= s.len() <= lev + 1 implies seen@[cell(
                s.last(),
                wi,
            )] && d[slot@[cell(s.last(), wi)] as int] <= s.len() - 1 by {}
    }
    let mut head: usize = 0;
    let mut done = false;
    while !done && head < queue.len()
        invariant
            has_neighbors(start),
            start != goal,
            n == cells(wi, hi),
            n <= usize::MAX,
            wi == w,
            hi == h,
            blk@.len() == n,
            forall|p: Pos| in_grid(p, wi, hi) ==> blk@[cell(p, wi)] == bl.contains(p),
            tree_ok(queue@, par@, d, start, wi, hi, goal, bl),
            grid_ok(queue@, seen@, slot@, wi, hi),
            levels_ok(d, head as int, lev),
            expanded(queue@, d, seen@, slot@, head as int, wi, hi, goal, bl),
            layers_found(d, seen@, slot@, lev, start, wi, hi, goal, bl),
            first_moves_ok(queue@, par@, d, r, start),
            first_moves_least(queue@, d, r, start, wi, hi, goal, bl),
            forall|i: int| 1 <= i < queue@.len() ==> #[trigger] par@[i] < head,
            done ==> head < queue@.len() && queue@[head as int] == goal,
            unseen.finite(),
            forall|c: int| 0 <= c < n ==> (unseen.contains(c) <==> !#[trigger] seen@[c]),
            forall|c: int| #[trigger] unseen.contains(c) ==> 0 <= c < n,
        decreases 2 * (unseen.len() + queue@.len() - head) + (if done { 0int } else { 1int }),
    {
        let cur = queue[head];
        if cur == goal {
            done = true;
        } else {
            proof {
                if head > 0 {
                    assert(par@[head as int] < head);
                    assert(passable(queue@[head as int], wi, hi, goal, bl));
                }
            }
            proof {
                reveal(first_moves_ok);
                if head == 0 {
                    if queue@.len() > 1 {
                        assert(par@[1] < head);
                    }
                } else {
                    assert(par@[head as int] < head);
                    assert forall|i: int|
                        1 <= i < queue@.len() && d[i] == lev + 1 implies #[trigger] r[i] <= r[head as int] by {
                        let p = par@[i] as int;
                        assert(p < head);
                        assert(d[p] == lev);
                        assert(d[p] >= 1);
                        assert(p >= 1);
                        if p < head {
                            assert(r[p] <= r[head as int]);
                        }
                    }
                }
            }
            let nb = cur.neighbors4();
            let ghost len0 = queue@.len();
            let ghost q0 = queue@;
            let ghost d0 = d;
            let ghost unseen0 = unseen;
            let mut k: usize = 0;
            while k < 4
                invariant
                    0 <= k <= 4,
                    n == cells(wi, hi),
                    n <= usize::MAX,
                    wi == w,
                    hi == h,
                    blk@.len() == n,
                    forall|p: Pos| in_grid(p, wi, hi) ==> blk@[cell(p, wi)] == bl.contains(p),
                    head < len0 <= queue@.len(),
                    has_neighbors(start),
                    cur == queue@[head as int],
                    cur != goal,
                    has_neighbors(cur),
                    forall|j: int| 0 <= j < 4 ==> #[trigger] nb@[j] == neighbor(cur, j),
                    forall|j: int| 0 <= j < len0 ==> q0[j] == #[trigger] queue@[j],
                    forall|j: int| 0 <= j < len0 ==> d0[j] == #[trigger] d[j],
                    forall|j: int| len0 <= j < d.len() ==> #[trigger] d[j] == lev + 1,
                    d0[head as int] == lev,
                    tree_ok(queue@, par@, d, start, wi, hi, goal, bl),
                    grid_ok(queue@, seen@, slot@, wi, hi),
                    levels_ok(d, head as int, lev),
                    expanded(queue@, d, seen@, slot@, head as int, wi, hi, goal, bl),
                    layers_found(d, seen@, slot@, lev, start, wi, hi, goal, bl),
                    first_moves_ok(queue@, par@, d, r, start),
                    first_moves_least(queue@, d, r, start, wi, hi, goal, bl),
                    forall|i: int| 1 <= i < queue@.len() ==> #[trigger] par@[i] <= head,
                    forall|i: int| 1 <= i < len0 ==> #[trigger] par@[i] < head,
                    forall|i: int|
                        1 <= i < queue@.len() && d[i] == lev + 1 ==> #[trigger] r[i] <= (if head == 0 {
                            k - 1
                        } else {
                            r[head as int]
                        }),
                    forall|j: int|
                        0 <= j < k && passable(neighbor(cur, j), wi, hi, goal, bl) ==> seen@[cell(
                            #[trigger] neighbor(cur, j),
                            wi,
                        )] && d[slot@[cell(neighbor(cur, j), wi)] as int] <= lev + 1,
                    unseen.finite(),
                    forall|c: int| 0 <= c < n ==> (unseen.contains(c) <==> !#[trigger] seen@[c]),
                    forall|c: int| #[trigger] unseen.contains(c) ==> 0 <= c < n,
                    unseen.len() + queue@.len() == unseen0.len() + len0,
                decreases 4 - k,
            {
                let v = nb[k];
                if v.x >= 0 && v.y >= 0 && v.x < w && v.y < h {
                    let c = cell_index(v, w, h);
                    if !seen[c] && (v == goal || !blk[c]) {
                        let ghost rnew: int = if head == 0 {
                            k as int
                        } else {
                            r[head as int]
                        };
                        proof {
                            lemma_cell(v, wi, hi);
                            assert(nb@[k as int] == neighbor(cur, k as int));
                            if head > 0 {
                                assert(par@[head as int] < head);
                            }
                            assert forall|sw: Seq<Pos>, j: int|
                                #[trigger] is_walk(sw, start, wi, hi, goal, bl) && sw.last() == v && sw.len() == lev + 2
                                    && 0 <= j < rnew implies sw[1] != #[trigger] neighbor(start, j) by {
                                lemma_first_move_of_new(
                                    queue@,
                                    par@,
                                    d,
                                    r,
                                    seen@,
                                    slot@,
                                    head as int,
                                    lev,
                                    v,
                                    k as int,
                                    start,
                                    wi,
                                    hi,
                                    goal,
                                    bl,
                                    sw,
                                    j,
                                );
                            }
                        }
                        let ghost rb = r;
                        let ghost qb = queue@;
                        let ghost seenb = seen@;
                        let ghost slotb = slot@;
                        let ghost db = d;
                        let ghost parb = par@;
                        let qlen = queue.len();
                        seen.set(c, true);
                        slot.set(c, qlen);
                        queue.push(v);
                        par.push(head);
                        proof {
                            reveal(first_moves_ok);
                            reveal(first_moves_least);
                            d = d.push(lev + 1);
                            r = r.push(rnew);
                            let m = qb.len() as int;
                            if head == 0 {
                                assert(cur == start);
                                assert(lev == 0);
                            } else {
                                assert(par@[head as int] < head);
                                assert(d[head as int] >= 1);
                            }
                            assert forall|i: int|
                                1 <= i < queue@.len() implies 0 <= #[trigger] r[i] < 4 && (d[i] == 1 ==> queue@[i]
                                == neighbor(start, r[i])) && (d[i] >= 2 ==> r[i] == r[par@[i] as int]) by {
                                if i < m {
                                    assert(rb[i] == r[i] && db[i] == d[i] && qb[i] == queue@[i] && parb[i] == par@[i]);
                                    if d[i] >= 2 {
                                        assert(parb[i] < i);
                                        assert(rb[parb[i] as int] == r[par@[i] as int]);
                                    }
                                } else {
                                    assert(par@[i] == head);
                                }
                            }
                            assert forall|i: int, j: int|
                                1 <= i < j < queue@.len() && d[i] == d[j] implies #[trigger] r[i] <= #[trigger] r[j] by {
                                if j < m {
                                    assert(rb[i] == r[i] && rb[j] == r[j] && db[i] == d[i] && db[j] == d[j]);
                                } else {
                                    assert(db[i] == d[i] && rb[i] == r[i]);
                                }
                            }
                            assert forall|i: int, sw: Seq<Pos>|
                                #![trigger is_walk(sw, start, wi, hi, goal, bl), queue@[i]]
                                1 <= i < queue@.len() && is_walk(sw, start, wi, hi, goal, bl) && sw.last() == queue@[i]
                                    && sw.len() == d[i] + 1 implies forall|j: int|
                                0 <= j < r[i] ==> sw[1] != #[trigger] neighbor(start, j) by {
                                if i < m {
                                    assert(rb[i] == r[i] && db[i] == d[i] && qb[i] == queue@[i]);
                                    assert(qb[i] == queue@[i]);
                                } else {
                                    assert(queue@[i] == v);
                                }
                            }
                            assert forall|i: int|
                                1 <= i < queue@.len() && d[i] == lev + 1 implies #[trigger] r[i] <= (if head == 0 {
                                    (k + 1) - 1
                                } else {
                                    r[head as int]
                                }) by {
                                if i < m {
                                    assert(rb[i] == r[i] && db[i] == d[i]);
                                }
                            }
                            assert forall|i: int| 1 <= i < queue@.len() implies #[trigger] par@[i] <= head by {
                                if i < m {
                                    assert(parb[i] == par@[i]);
                                }
                            }
                            assert forall|i: int| 1 <= i < len0 implies #[trigger] par@[i] < head by {
                                assert(parb[i] == par@[i]);
                            }
                            unseen = unseen.remove(c as int);
                            assert(!unseen.contains(c as int));
                            // v was not discovered yet
                            assert forall|i: int| 0 <= i < qb.len() implies qb[i] != v by {
                                if qb[i] == v {
                                    assert(seenb[cell(qb[i], wi)]);
                                }
                            }
                            assert forall|i: int| 1 <= i < queue@.len() implies #[trigger] par@[i] < i
                                && adjacent(queue@[par@[i] as int], queue@[i]) && passable(
                                queue@[i],
                                wi,
                                hi,
                                goal,
                                bl,
                            ) && d[i] == d[par@[i] as int] + 1 by {
                                if i < qb.len() {
                                    assert(parb[i] == par@[i]);
                                    assert(qb[i] == queue@[i]);
                                    assert(qb[parb[i] as int] == queue@[par@[i] as int]);
                                } else {
                                    assert(nb@[k as int] == neighbor(cur, k as int));
                                    lemma_adjacent_iff_neighbor(cur, v);
                                    assert(0 <= k < 4 && neighbor(cur, k as int) == v);
                                }
                            }
                            assert forall|i: int, j: int| 0 <= i < j < queue@.len() implies #[trigger] queue@[i]
                                != #[trigger] queue@[j] by {
                                if j < qb.len() {
                                    assert(qb[i] != qb[j]);
                                }
                            }
                            assert forall|p: Pos| in_grid(p, wi, hi) && #[trigger] seen@[cell(p, wi)] implies slot@[cell(
                                p,
                                wi,
                            )] < queue@.len() && queue@[slot@[cell(p, wi)] as int] == p by {
                                lemma_cell(p, wi, hi);
                                if p != v {
                                    lemma_cell_distinct(p, v, wi, hi);
                                    assert(seenb[cell(p, wi)]);
                                }
                            }
                            assert forall|i: int| 0 <= i < queue@.len() && in_grid(queue@[i], wi, hi) implies #[trigger] seen@[cell(
                                queue@[i],
                                wi,
                            )] by {
                                if i < qb.len() {
                                    assert(seenb[cell(qb[i], wi)]);
                                    lemma_cell(qb[i], wi, hi);
                                }
                            }
                            assert forall|i: int, j: int| 0 <= i < j < d.len() implies #[trigger] d[i]
                                <= #[trigger] d[j] by {
                                if j < db.len() {
                                    assert(db[i] <= db[j]);
                                }
                            }
                            assert forall|i: int, u: Pos|
                                0 <= i < head && #[trigger] adjacent(queue@[i], u) && passable(u, wi, hi, goal, bl) implies seen@[cell(
                                u,
                                wi,
                            )] && d[slot@[cell(u, wi)] as int] <= d[i] + 1 by {
                                assert(qb[i] == queue@[i]);
                                assert(seenb[cell(u, wi)]);
                                lemma_cell(u, wi, hi);
                                if u != v {
                                    lemma_cell_distinct(u, v, wi, hi);
                                }
                                assert(slotb[cell(u, wi)] < qb.len());
                            }
                            assert forall|s: Seq<Pos>|
                                #[trigger] is_walk(s, start, wi, hi, goal, bl) && 2 <= s.len() <= lev + 1 implies seen@[cell(
                                s.last(),
                                wi,
                            )] && d[slot@[cell(s.last(), wi)] as int] <= s.len() - 1 by {
                                assert(seenb[cell(s.last(), wi)]);
                                lemma_cell(s.last(), wi, hi);
                                if s.last() != v {
                                    lemma_cell_distinct(s.last(), v, wi, hi);
                                }
                                assert(slotb[cell(s.last(), wi)] < qb.len());
                            }
                            assert forall|j: int|
                                0 <= j < k + 1 && passable(neighbor(cur, j), wi, hi, goal, bl) implies seen@[cell(
                                #[trigger] neighbor(cur, j),
                                wi,
                            )] && d[slot@[cell(neighbor(cur, j), wi)] as int] <= lev + 1 by {
                                lemma_cell(neighbor(cur, j), wi, hi);
                                if j < k {
                                    assert(seenb[cell(neighbor(cur, j), wi)]);
                                    if neighbor(cur, j) != v {
                                        lemma_cell_distinct(neighbor(cur, j), v, wi, hi);
                                    }
                                    assert(slotb[cell(neighbor(cur, j), wi)] < qb.len());
                                }
                            }
                            assert forall|cc: int| 0 <= cc < n implies (unseen.contains(cc) <==> !#[trigger] seen@[cc]) by {
                                if cc != c {
                                    assert(seenb[cc] == seen@[cc]);
                                }
                            }
                        }
                    } else {
                        proof {
                            lemma_cell(v, wi, hi);
                            assert(nb@[k as int] == neighbor(cur, k as int));
                            if passable(v, wi, hi, goal, bl) {
                                assert(seen@[cell(v, wi)]);
                                let j = slot@[cell(v, wi)] as int;
                                assert(d[j] <= lev + 1);
                            }
                        }
                    }
                } else {
                    proof {
                        assert(nb@[k as int] == neighbor(cur, k as int));
                    }
                }
                k = k + 1;
            }
            proof {
                assert forall|i: int, u: Pos|
                    0 <= i < head + 1 && #[trigger] adjacent(queue@[i], u) && passable(u, wi, hi, goal, bl) implies seen@[cell(
                    u,
                    wi,
                )] && d[slot@[cell(u, wi)] as int] <= d[i] + 1 by {
                    if i == head {
                        lemma_adjacent_iff_neighbor(cur, u);
                        let j = choose|j: int| 0 <= j < 4 && neighbor(cur, j) == u;
                        assert(seen@[cell(neighbor(cur, j), wi)]);
                    }
                }
            }
            let ghost old_lev = lev;
            head = head + 1;
            proof {
                if (head as int) < queue@.len() {
                    lev = d[head as int];
                }
                if lev == old_lev + 1 {
                    assert forall|s: Seq<Pos>|
                        #[trigger] is_walk(s, start, wi, hi, goal, bl) && 2 <= s.len() <= lev + 1 implies seen@[cell(
                            s.last(),
                            wi,
                        )] && d[slot@[cell(s.last(), wi)] as int] <= s.len() - 1 by {
                        if s.len() == lev + 1 {
                            let s0 = s.take(s.len() - 1);
                            lemma_walk_prefix(s, s.len() - 1, start, wi, hi, goal, bl);
                            let u = s0.last();
                            let j: int = if s0.len() >= 2 {
                                assert(is_walk(s0, start, wi, hi, goal, bl));
                                slot@[cell(u, wi)] as int
                            } else {
                                0
                            };
                            assert(queue@[j] == u);
                            assert(d[j] <= old_lev);
                            if j >= head {
                                assert(d[head as int] <= d[j]);
                            }
                            assert(s[s.len() - 2] == u);
                            assert(adjacent(queue@[j], s.last()));
                        }
                    }
                }
            }
        }
    }
    proof {
        if done {
            assert(par@[head as int] < head);
            assert(passable(queue@[head as int], wi, hi, goal, bl));
            assert(seen@[cell(queue@[head as int], wi)]);
        }
    }
    (queue, par, seen, slot, Ghost(d), Ghost(lev), Ghost(r))
}

/// When every discovered cell is expanded, every walk from `start` ends on a
/// discovered cell.
proof fn lemma_closed(
    q: Seq<Pos>,
    par: Seq<usize>,
    d: Seq<int>,
    seen: Seq<bool>,
    slot: Seq<usize>,
    s: Seq<Pos>,
    start: Pos,
    w: int,
    h: int,
    goal: Pos,
    bl: Set<Pos>,
)
    requires
        tree_ok(q, par, d, start, w, h, goal, bl),
        grid_ok(q, seen, slot, w, h),
        expanded(q, d, seen, slot, q.len() as int, w, h, goal, bl),
        is_walk(s, start, w, h, goal, bl),
        s.len() >= 2,
    ensures
        seen[cell(s.last(), w)],
    decreases s.len(),
{
    let s0 = s.take(s.len() - 1);
    lemma_walk_prefix(s, s.len() - 1, start, w, h, goal, bl);
    let j: int = if s0.len() >= 2 {
        lemma_closed(q, par, d, seen, slot, s0, start, w, h, goal, bl);
        assert(passable(s0.last(), w, h, goal, bl));
        slot[cell(s0.last(), w)] as int
    } else {
        0
    };
    assert(q[j] == s0.last());
    assert(s[s.len() - 1] == s.last());
    assert(adjacent(s[s.len() - 2], s[s.len() - 1]));
    assert(adjacent(q[j], s.last()));
}

/// The step that the search gives from `start` towards `goal`: among the
/// neighbours of `start` that begin a shortest walk to `goal`, the one reached
/// by the lowest-numbered move (right, left, down, up); `None` at the goal or
/// when no walk exists.
pub open spec fn search_step(start: Pos, w: int, h: int, goal: Pos, bl: Set<Pos>) -> Option<Pos> {
    if start != goal && reachable(start, w, h, goal, bl) {
        let k = choose|k: int|
            0 <= k < 4 && first_step_of_shortest(neighbor(start, k), start, w, h, goal, bl) && forall|j: int|
                0 <= j < k ==> !first_step_of_shortest(#[trigger] neighbor(start, j), start, w, h, goal, bl);
        Some(neighbor(start, k))
    } else {
        None
    }
}

/// The next step from `start` towards `goal` along a shortest path that
/// avoids the known obstacles in `blocked` and stays on the `width` by
/// `height` grid; the goal itself may be entered even if it is listed.
/// `None` when `start == goal` or when no such path exists.
pub fn next_step(start: Pos, goal: Pos, width: i32, height: i32, blocked: &PosSet) -> (r: Option<Pos>)
    requires
        start != goal ==> has_neighbors(start),
        cells(width as int, height as int) <= usize::MAX,
    ensures
        r == search_step(start, width as int, height as int, goal, blocked@),
        start == goal ==> r is None,
        start != goal ==> (r is Some <==> reachable(start, width as int, height as int, goal, blocked@)),
        r matches Some(n) ==> first_step_of_shortest(n, start, width as int, height as int, goal, blocked@),
        r matches Some(n) ==> adjacent(start, n) && passable(n, width as int, height as int, goal, blocked@),
{
    if start == goal {
        return None;
    }
    let ghost wi = width as int;
    let ghost hi = height as int;
    let ghost bl = blocked@;
    let n: usize = if width > 0 && height > 0 {
        proof {
            assert(cells(wi, hi) == wi * hi);
        }
        (width as usize) * (height as usize)
    } else {
        0
    };
    let blk = blocked_cells(width, height, n, blocked);
    let (queue, par, seen, slot, Ghost(d), Ghost(lev), Ghost(r)) = explore(start, goal, width, height, n, &blk, Ghost(bl));
    let goal_in = goal.x >= 0 && goal.y >= 0 && goal.x < width && goal.y < height;
    if !goal_in {
        proof {
            assert forall|t: Seq<Pos>| walk_to(t, start, wi, hi, goal, bl) implies false by {
                if t.len() >= 2 {
                    assert(t[t.len() - 1] == t.last());
                    assert(passable(t[t.len() - 1], wi, hi, goal, bl));
                }
            }
        }
        return None;
    }
    let cg = cell_index(goal, width, height);
    if !seen[cg] {
        proof {
            assert forall|t: Seq<Pos>| walk_to(t, start, wi, hi, goal, bl) implies false by {
                if t.len() >= 2 {
                    lemma_closed(queue@, par@, d, seen@, slot@, t, start, wi, hi, goal, bl);
                }
            }
        }
        return None;
    }
    let kg = slot[cg];
    let mut k = kg;
    let ghost mut tail: Seq<Pos> = seq![goal];
    proof {
        assert(queue@[kg as int] == goal);
        if kg == 0 {
            assert(queue@[0] == start);
        }
    }
    while par[k] != 0
        invariant
            tree_ok(queue@, par@, d, start, wi, hi, goal, bl),
            1 <= k < queue@.len(),
            1 <= kg < queue@.len(),
            first_moves_ok(queue@, par@, d, r, start),
            forall|i: int| 0 <= i < d.len() ==> 0 <= #[trigger] d[i],
            r[k as int] == r[kg as int],
            tail.len() == d[kg as int] - d[k as int] + 1,
            tail.len() >= 1,
            tail[0] == queue@[k as int],
            tail.last() == goal,
            forall|i: int|
                1 <= i < tail.len() ==> adjacent(tail[i - 1], #[trigger] tail[i]) && passable(
                    tail[i],
                    wi,
                    hi,
                    goal,
                    bl,
                ),
        decreases k,
    {
        let ghost kk = k as int;
        proof {
            assert(par@[kk] < kk);
            reveal(first_moves_ok);
            let pk = par@[kk] as int;
            assert(par@[pk] < pk);
            assert(d[pk] == d[par@[pk] as int] + 1);
            assert(d[par@[pk] as int] >= 0);
            assert(r[kk] == r[par@[kk] as int]);
        }
        k = par[k];
        proof {
            let old_tail = tail;
            tail = seq![queue@[k as int]] + old_tail;
            assert(tail[tail.len() - 1] == old_tail[old_tail.len() - 1]);
            assert forall|i: int| 1 <= i < tail.len() implies adjacent(tail[i - 1], #[trigger] tail[i])
                && passable(tail[i], wi, hi, goal, bl) by {
                if i == 1 {
                    assert(tail[1] == old_tail[0]);
                    assert(passable(queue@[kk], wi, hi, goal, bl));
                } else {
                    assert(tail[i] == old_tail[i - 1]);
                    assert(tail[i - 1] == old_tail[i - 2]);
                }
            }
        }
    }
    let step = queue[k];
    proof {
        assert(par@[k as int] == 0);
        let s = seq![start] + tail;
        assert(s[1] == tail[0]);
        assert(s[s.len() - 1] == tail[tail.len() - 1]);
        assert forall|i: int| 1 <= i < s.len() implies adjacent(s[i - 1], #[trigger] s[i]) && passable(
            s[i],
            wi,
            hi,
            goal,
            bl,
        ) by {
            if i == 1 {
                assert(s[0] == start);
                assert(queue@[0] == start);
            } else {
                assert(s[i] == tail[i - 1]);
                assert(s[i - 1] == tail[i - 2]);
            }
        }
        assert(s.last() == tail.last());
        assert(walk_to(s, start, wi, hi, goal, bl));
        assert forall|t: Seq<Pos>| #[trigger] walk_to(t, start, wi, hi, goal, bl) implies s.len() <= t.len() by {
            if t.len() < 2 {
                assert(t[0] == start);
            } else if t.len() <= lev + 1 {
                assert(is_walk(t, start, wi, hi, goal, bl));
                assert(d[slot@[cell(t.last(), wi)] as int] <= t.len() - 1);
            } else {
                assert(d[kg as int] <= lev + 1);
            }
        }
        assert(first_step_of_shortest(step, start, wi, hi, goal, bl));
        reveal(first_moves_ok);
        reveal(first_moves_least);
        let rk = r[k as int];
        assert(d[k as int] == 1);
        assert(step == neighbor(start, rk));
        assert forall|j: int| 0 <= j < rk implies !first_step_of_shortest(
            #[trigger] neighbor(start, j),
            start,
            wi,
            hi,
            goal,
            bl,
        ) by {
            if first_step_of_shortest(neighbor(start, j), start, wi, hi, goal, bl) {
                let s2 = choose|s2: Seq<Pos>|
                    #[trigger] walk_to(s2, start, wi, hi, goal, bl) && s2.len() >= 2 && s2[1] == neighbor(start, j)
                        && forall|t: Seq<Pos>| #[trigger] walk_to(t, start, wi, hi, goal, bl) ==> s2.len() <= t.len();
                assert(s2.len() <= s.len());
                assert(s2.len() == d[kg as int] + 1);
                assert(queue@[kg as int] == goal);
                assert(is_walk(s2, start, wi, hi, goal, bl) && s2.last() == queue@[kg as int]);
                assert(s2[1] != neighbor(start, j));
            }
        }
        assert forall|k2: int|
            0 <= k2 < 4 && first_step_of_shortest(neighbor(start, k2), start, wi, hi, goal, bl) && (forall|j: int|
                0 <= j < k2 ==> !first_step_of_shortest(#[trigger] neighbor(start, j), start, wi, hi, goal, bl))
                implies k2 == rk by {
            if k2 > rk {
                assert(!first_step_of_shortest(neighbor(start, rk), start, wi, hi, goal, bl));
            }
        }
        assert(reachable(start, wi, hi, goal, bl));
        assert(search_step(start, wi, hi, goal, bl) == Some(step));
    }
    Some(step)
}

} // verus!
