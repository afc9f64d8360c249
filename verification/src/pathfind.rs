//! Grid-aware pathfinding over the four-connected toroidal neighborhood,
//! honoring obstacles and, optionally, the fog of war.

use vstd::prelude::*;
use crate::Cell;
use crate::grid::{Grid, Table, lemma_area_bound, lemma_flat_index_in_range};
use crate::state::{DiscoveryMap, GameState};

verus! {

/// An entry of the pathfinder's open set.
#[derive(Clone, Copy)]
pub struct Node {
    pub cost: usize,
    pub position: (usize, usize),
    pub priority: usize,
}

/// A coordinate pair as mathematical integers.
pub open spec fn p2i(p: (usize, usize)) -> (int, int) {
    (p.0 as int, p.1 as int)
}

/// The next coordinate upward, wrapping at the limit.
pub open spec fn wrap_inc(n: int, limit: int) -> int {
    if n == limit - 1 {
        0
    } else {
        n + 1
    }
}

/// The next coordinate downward, wrapping at zero.
pub open spec fn wrap_dec(n: int, limit: int) -> int {
    if n == 0 {
        limit - 1
    } else {
        n - 1
    }
}

/// Whether `b` is one of the four toroidal neighbors of `a`.
pub open spec fn adjacent_wrapped(w: int, h: int, a: (int, int), b: (int, int)) -> bool {
    ||| (b.0 == wrap_inc(a.0, w) && b.1 == a.1)
    ||| (b.0 == wrap_dec(a.0, w) && b.1 == a.1)
    ||| (b.0 == a.0 && b.1 == wrap_inc(a.1, h))
    ||| (b.0 == a.0 && b.1 == wrap_dec(a.1, h))
}

/// Whether a robot may stand on `p`: never an obstacle, and under the fog
/// constraint only discovered territory.
pub open spec fn passable(g: Grid, d: DiscoveryMap, p: (int, int), avoid_fog: bool) -> bool {
    g.cell(p.0, p.1) != Cell::Obstacle && (avoid_fog ==> d.at(p.0, p.1))
}

/// The neighbor of `p` that direction `dir` designates: left, right, up,
/// down, wrapping at the edges.
pub open spec fn step_of(w: int, h: int, p: (int, int), dir: int) -> (int, int) {
    if dir == 0 {
        (wrap_dec(p.0, w), p.1)
    } else if dir == 1 {
        (wrap_inc(p.0, w), p.1)
    } else if dir == 2 {
        (p.0, wrap_dec(p.1, h))
    } else {
        (p.0, wrap_inc(p.1, h))
    }
}

/// A cell a robot may wander onto: never an Obstacle, never a Reserved
/// cell.
pub open spec fn walkable(c: Cell) -> bool {
    c == Cell::Empty || c == Cell::Energy || c == Cell::Crystal || c == Cell::Base
}

/// Where one random exploration step ends up, given the drawn direction:
/// the designated neighbor if it is walkable, the old position otherwise.
pub open spec fn random_step_outcome(g: Grid, p: (int, int), dir: int) -> (int, int) {
    let q = step_of(g.width as int, g.height as int, p, dir);
    if walkable(g.cell(q.0, q.1)) {
        q
    } else {
        p
    }
}

/// A walkable route: consecutive cells are toroidal neighbors, and every
/// cell after the first is passable under the given fog constraint.
pub open spec fn valid_path(
    g: Grid,
    d: DiscoveryMap,
    path: Seq<(usize, usize)>,
    avoid_fog: bool,
) -> bool {
    &&& path.len() >= 1
    &&& forall|k: int|
        0 <= k < path.len() ==> g.in_bounds(#[trigger] path[k].0 as int, path[k].1 as int)
    &&& forall|k: int|
        1 <= k < path.len() ==> adjacent_wrapped(
            g.width as int,
            g.height as int,
            p2i(path[k - 1]),
            #[trigger] p2i(path[k]),
        ) && passable(g, d, p2i(path[k]), avoid_fog)
}

/// A walkable route from `a` to `b`.
pub open spec fn is_route(
    g: Grid,
    d: DiscoveryMap,
    avoid_fog: bool,
    a: (usize, usize),
    b: (usize, usize),
    p: Seq<(usize, usize)>,
) -> bool {
    valid_path(g, d, p, avoid_fog) && p[0] == a && p[p.len() - 1] == b
}

/// Whether some queue entry at or after `head` sits on position `p`.
pub open spec fn in_open(q: Seq<Node>, head: int, p: (usize, usize)) -> bool {
    exists|k: int| head <= k < q.len() && (#[trigger] q[k]).position == p
}

/// All four neighbors of `(a, b)` that a path may use carry a cost label
/// at most one above this cell's own.
pub open spec fn expanded(
    g: Grid,
    d: DiscoveryMap,
    fog: bool,
    gs: Table<Option<usize>>,
    a: int,
    b: int,
) -> bool {
    forall|dir: int|
        0 <= dir < 4 && passable(
            g,
            d,
            #[trigger] step_of(g.width as int, g.height as int, (a, b), dir),
            fog,
        ) ==> gs.at(
            step_of(g.width as int, g.height as int, (a, b), dir).0,
            step_of(g.width as int, g.height as int, (a, b), dir).1,
        ) is Some && gs.at(
            step_of(g.width as int, g.height as int, (a, b), dir).0,
            step_of(g.width as int, g.height as int, (a, b), dir).1,
        )->Some_0 <= gs.at(a, b)->Some_0 + 1
}

/// How many cells of a cost table carry a label.
pub open spec fn labeled_count(cells: Seq<Option<usize>>) -> int
    decreases cells.len(),
{
    if cells.len() == 0 {
        0
    } else {
        labeled_count(cells.drop_last()) + if cells.last() is Some {
            1int
        } else {
            0int
        }
    }
}

proof fn lemma_labeled_count_update(cells: Seq<Option<usize>>, i: int, c: Option<usize>)
    requires
        0 <= i < cells.len(),
        cells[i] is None,
        c is Some,
    ensures
        labeled_count(cells.update(i, c)) == labeled_count(cells) + 1,
    decreases cells.len(),
{
    let u = cells.update(i, c);
    if i == cells.len() - 1 {
        assert(u.drop_last() =~= cells.drop_last());
    } else {
        assert(u.drop_last() =~= cells.drop_last().update(i, c));
        lemma_labeled_count_update(cells.drop_last(), i, c);
    }
}

proof fn lemma_labeled_count_le_len(cells: Seq<Option<usize>>)
    ensures
        0 <= labeled_count(cells) <= cells.len(),
    decreases cells.len(),
{
    if cells.len() > 0 {
        lemma_labeled_count_le_len(cells.drop_last());
    }
}

proof fn lemma_labeled_count_none(cells: Seq<Option<usize>>)
    requires
        forall|k: int| 0 <= k < cells.len() ==> cells[k] is None,
    ensures
        labeled_count(cells) == 0,
    decreases cells.len(),
{
    if cells.len() > 0 {
        assert(forall|k: int|
            0 <= k < cells.len() - 1 ==> cells.drop_last()[k] == cells[k]);
        lemma_labeled_count_none(cells.drop_last());
    }
}

/// Every toroidal neighbor is reached by one of the four directions.
proof fn lemma_adjacent_is_step(w: int, h: int, a: (int, int), b: (int, int))
    requires
        adjacent_wrapped(w, h, a, b),
    ensures
        exists|dir: int| 0 <= dir < 4 && b == #[trigger] step_of(w, h, a, dir),
{
    if b.0 == wrap_dec(a.0, w) && b.1 == a.1 {
        assert(b == step_of(w, h, a, 0));
    } else if b.0 == wrap_inc(a.0, w) && b.1 == a.1 {
        assert(b == step_of(w, h, a, 1));
    } else if b.0 == a.0 && b.1 == wrap_dec(a.1, h) {
        assert(b == step_of(w, h, a, 2));
    } else {
        assert(b == step_of(w, h, a, 3));
    }
}

/// Expansion survives the granting of further labels.
proof fn lemma_expanded_monotone(
    g: Grid,
    d: DiscoveryMap,
    fog: bool,
    gs0: Table<Option<usize>>,
    gs1: Table<Option<usize>>,
    a: int,
    b: int,
)
    requires
        gs0.width == gs1.width,
        gs0.height == gs1.height,
        expanded(g, d, fog, gs0, a, b),
        g.wf(),
        gs0.wf(),
        gs0.width == g.width,
        gs0.height == g.height,
        gs0.in_bounds(a, b),
        gs0.at(a, b) is Some,
        forall|i: int, j: int|
            gs0.in_bounds(i, j) && #[trigger] gs0.at(i, j) is Some ==> gs1.at(i, j) == gs0.at(
                i,
                j,
            ),
    ensures
        expanded(g, d, fog, gs1, a, b),
{
    assert forall|dir: int|
        0 <= dir < 4 && passable(
            g,
            d,
            #[trigger] step_of(g.width as int, g.height as int, (a, b), dir),
            fog,
        ) implies gs1.at(
        step_of(g.width as int, g.height as int, (a, b), dir).0,
        step_of(g.width as int, g.height as int, (a, b), dir).1,
    ) is Some && gs1.at(
        step_of(g.width as int, g.height as int, (a, b), dir).0,
        step_of(g.width as int, g.height as int, (a, b), dir).1,
    )->Some_0 <= gs1.at(a, b)->Some_0 + 1 by {
        let q = step_of(g.width as int, g.height as int, (a, b), dir);
        assert(gs0.in_bounds(q.0, q.1));
        assert(gs0.at(q.0, q.1) is Some);
        assert(gs1.at(q.0, q.1) == gs0.at(q.0, q.1));
        assert(gs1.at(a, b) == gs0.at(a, b));
    }
}

/// When every labeled cell is fully expanded and a route starts on a
/// labeled cell, the whole route is labeled.
proof fn lemma_route_stays_labeled(
    g: Grid,
    d: DiscoveryMap,
    fog: bool,
    gs: Table<Option<usize>>,
    p: Seq<(usize, usize)>,
    n: int,
)
    requires
        g.wf(),
        gs.wf(),
        gs.width == g.width,
        gs.height == g.height,
        valid_path(g, d, p, fog),
        gs.at(p[0].0 as int, p[0].1 as int) is Some,
        forall|a: int, b: int|
            gs.in_bounds(a, b) && #[trigger] gs.at(a, b) is Some ==> expanded(g, d, fog, gs, a, b),
        0 <= n < p.len(),
    ensures
        gs.at(p[n].0 as int, p[n].1 as int) is Some,
        gs.at(p[n].0 as int, p[n].1 as int)->Some_0 <= gs.at(
            p[0].0 as int,
            p[0].1 as int,
        )->Some_0 + n,
    decreases n,
{
    if n > 0 {
        lemma_route_stays_labeled(g, d, fog, gs, p, n - 1);
        lemma_adjacent_is_step(g.width as int, g.height as int, p2i(p[n - 1]), p2i(p[n]));
        let dir = choose|dir: int|
            0 <= dir < 4 && p2i(p[n]) == #[trigger] step_of(
                g.width as int,
                g.height as int,
                p2i(p[n - 1]),
                dir,
            );
        assert(expanded(g, d, fog, gs, p[n - 1].0 as int, p[n - 1].1 as int));
        assert(passable(
            g,
            d,
            step_of(g.width as int, g.height as int, p2i(p[n - 1]), dir),
            fog,
        ));
        assert(gs.at(p[n].0 as int, p[n].1 as int)->Some_0 <= gs.at(
            p[n - 1].0 as int,
            p[n - 1].1 as int,
        )->Some_0 + 1);
    }
}

/// Distance between two integers.
pub open spec fn dist1(a: int, b: int) -> int {
    if a >= b {
        a - b
    } else {
        b - a
    }
}

/// Manhattan distance, deliberately computed without wraparound: an
/// admissible (never overestimating) heuristic on the torus.
pub open spec fn spec_manhattan(a: (int, int), b: (int, int)) -> int {
    dist1(a.0, b.0) + dist1(a.1, b.1)
}

/// One step from `p` in one of the four directions, wrapping at the edges.
fn wrap_step(w: usize, h: usize, p: (usize, usize), dir: usize) -> (q: (usize, usize))
    requires
        1 <= w,
        1 <= h,
        p.0 < w,
        p.1 < h,
        dir < 4,
    ensures
        q.0 < w,
        q.1 < h,
        adjacent_wrapped(w as int, h as int, p2i(p), p2i(q)),
        p2i(q) == step_of(w as int, h as int, p2i(p), dir as int),
{
    if dir == 0 {
        (if p.0 == 0 { w - 1 } else { p.0 - 1 }, p.1)
    } else if dir == 1 {
        (if p.0 == w - 1 { 0 } else { p.0 + 1 }, p.1)
    } else if dir == 2 {
        (p.0, if p.1 == 0 { h - 1 } else { p.1 - 1 })
    } else {
        (p.0, if p.1 == h - 1 { 0 } else { p.1 + 1 })
    }
}

impl GameState {
    /// The grid and discovery state agree on their dimensions; what the
    /// pathfinder needs of a state.
    pub open spec fn maps_wf(self) -> bool {
        &&& self.map.wf()
        &&& self.discovered.wf()
        &&& self.discovered.width == self.map.width
        &&& self.discovered.height == self.map.height
    }

    /// Normalizes a coordinate pair onto the torus by modulo arithmetic.
    pub fn wrap_position(&self, x: usize, y: usize) -> (r: (usize, usize))
        requires
            self.map.wf(),
        ensures
            r.0 == x as int % self.map.width as int,
            r.1 == y as int % self.map.height as int,
            self.map.in_bounds(r.0 as int, r.1 as int),
    {
        (x % self.map.width, y % self.map.height)
    }

    /// The A* heuristic: Manhattan distance without wraparound.
    pub fn heuristic(a: (usize, usize), b: (usize, usize)) -> (r: usize)
        requires
            a.0 <= 4096,
            a.1 <= 4096,
            b.0 <= 4096,
            b.1 <= 4096,
        ensures
            r == spec_manhattan(p2i(a), p2i(b)),
    {
        let dx = if a.0 >= b.0 {
            a.0 - b.0
        } else {
            b.0 - a.0
        };
        let dy = if a.1 >= b.1 {
            a.1 - b.1
        } else {
            b.1 - a.1
        };
        dx + dy
    }

    /// A fresh breadth-first search from `start` to `goal` over the
    /// four-connected toroidal neighborhood. It returns a path exactly
    /// when a walkable route exists under the current obstacle and
    /// discovery constraints; the returned path starts at `start`, ends
    /// at `goal`, moves only between toroidal neighbors, and after its
    /// first cell touches only passable cells. `None` is a "wait" signal
    /// for the caller, and it provably means the goal is unreachable.
    /// With the uniform step cost, first-reached labels are shortest on
    /// this grid; the unwrapped Manhattan f-score is kept on each queue
    /// entry, but the queue is processed in label order, which stays
    /// exact where that heuristic would overestimate across the seam.
    #[verifier::rlimit(100)]
    pub fn a_star_pathfinding(
        &self,
        start: (usize, usize),
        goal: (usize, usize),
        avoid_fog: bool,
    ) -> (r: Option<Vec<(usize, usize)>>)
        requires
            self.maps_wf(),
            self.map.in_bounds(start.0 as int, start.1 as int),
            self.map.in_bounds(goal.0 as int, goal.1 as int),
        ensures
            r is Some <==> (exists|p: Seq<(usize, usize)>|
                is_route(self.map, self.discovered, avoid_fog, start, goal, p)),
            match r {
                Some(path) => is_route(self.map, self.discovered, avoid_fog, start, goal, path@)
                    && (forall|p: Seq<(usize, usize)>|
                    is_route(self.map, self.discovered, avoid_fog, start, goal, p) ==> p.len()
                        >= path@.len()),
                None => true,
            },
    {
        let w = self.map.width;
        let h = self.map.height;
        proof {
            lemma_area_bound(w as int, h as int);
        }
        let size: usize = w * h;
        let mut g_score: Table<Option<usize>> = Table::new_filled(w, h, None);
        let mut came_from: Table<Option<(usize, usize)>> = Table::new_filled(w, h, None);
        let mut open: Vec<Node> = Vec::new();
        let mut head: usize = 0;
        proof {
            lemma_labeled_count_none(g_score.cells@);
            lemma_flat_index_in_range(start.0 as int, start.1 as int, w as int, h as int);
            lemma_labeled_count_update(
                g_score.cells@,
                start.1 as int * w as int + start.0 as int,
                Some(0usize),
            );
        }
        open.push(Node { cost: 0, position: start, priority: Self::heuristic(start, goal) });
        g_score.set(start.0, start.1, Some(0));
        let mut labeled: usize = 1;
        proof {
            assert forall|a: int, b: int|
                g_score.in_bounds(a, b) && #[trigger] g_score.at(a, b) is Some implies in_open(
                open@,
                0,
                (a as usize, b as usize),
            ) by {
                if a != start.0 as int || b != start.1 as int {
                    assert(g_score.at(a, b) is None);
                } else {
                    assert((a as usize, b as usize) == start);
                    assert(open@[0].position == start);
                }
            }
        }

        while head < open.len()
            invariant
                self.maps_wf(),
                w == self.map.width,
                h == self.map.height,
                size == w * h,
                size <= 16777216,
                self.map.in_bounds(start.0 as int, start.1 as int),
                self.map.in_bounds(goal.0 as int, goal.1 as int),
                g_score.wf() && g_score.width == w && g_score.height == h,
                came_from.wf() && came_from.width == w && came_from.height == h,
                head <= open@.len(),
                1 <= labeled,
                labeled == labeled_count(g_score.cells@),
                labeled <= size,
                g_score.at(start.0 as int, start.1 as int) == Some(0usize),
                came_from.at(start.0 as int, start.1 as int) is None,
                forall|k: int|
                    0 <= k < open@.len() ==> {
                        let nd = #[trigger] open@[k];
                        &&& self.map.in_bounds(nd.position.0 as int, nd.position.1 as int)
                        &&& g_score.at(nd.position.0 as int, nd.position.1 as int) == Some(nd.cost)
                    },
                forall|a: int, b: int|
                    g_score.in_bounds(a, b) && #[trigger] g_score.at(a, b) is Some
                        ==> g_score.at(a, b)->Some_0 < labeled,
                forall|a: int, b: int|
                    g_score.in_bounds(a, b) && #[trigger] g_score.at(a, b) is Some && (a
                        != start.0 as int || b != start.1 as int) ==> came_from.at(a, b) is Some,
                head == 0 ==> open@.len() <= 1,
                head == 0 ==> forall|a: int, b: int|
                    g_score.in_bounds(a, b) && #[trigger] g_score.at(a, b) is Some ==> in_open(
                        open@,
                        0,
                        (a as usize, b as usize),
                    ),
                forall|k1: int, k2: int|
                    0 <= k1 <= k2 < open@.len() ==> (#[trigger] open@[k1]).cost <= (
                    #[trigger] open@[k2]).cost,
                head >= 1 ==> forall|k: int|
                    0 <= k < open@.len() ==> (#[trigger] open@[k]).cost <= open@[
                        head - 1
                    ].cost + 1,
                head >= 1 ==> forall|a: int, b: int|
                    g_score.in_bounds(a, b) && #[trigger] g_score.at(a, b) is Some && !in_open(
                        open@,
                        head as int,
                        (a as usize, b as usize),
                    ) ==> g_score.at(a, b)->Some_0 <= open@[head - 1].cost,
                forall|a: int, b: int|
                    g_score.in_bounds(a, b) && #[trigger] g_score.at(a, b) is Some ==> (in_open(
                        open@,
                        head as int,
                        (a as usize, b as usize),
                    ) || expanded(self.map, self.discovered, avoid_fog, g_score, a, b)),
                forall|a: int, b: int|
                    came_from.in_bounds(a, b) && #[trigger] came_from.at(a, b) is Some ==> {
                        let q = came_from.at(a, b)->Some_0;
                        &&& self.map.in_bounds(q.0 as int, q.1 as int)
                        &&& adjacent_wrapped(w as int, h as int, p2i(q), (a, b))
                        &&& passable(self.map, self.discovered, (a, b), avoid_fog)
                        &&& g_score.at(a, b) is Some
                        &&& g_score.at(q.0 as int, q.1 as int) is Some
                        &&& g_score.at(a, b)->Some_0 == g_score.at(
                            q.0 as int,
                            q.1 as int,
                        )->Some_0 + 1
                    },
            decreases size - labeled, open@.len() - head,
        {
            let node = open[head];
            let position = node.position;
            head = head + 1;
            let ghost pre_open = open@;
            let ghost lab0 = labeled;
            let ghost len0 = open@.len();
            proof {
                // anything queued beyond the popped entry is still queued
                assert forall|v: (usize, usize)|
                    in_open(pre_open, head - 1, v) && v != position implies in_open(
                    pre_open,
                    head as int,
                    v,
                ) by {
                    let k = choose|k: int|
                        head - 1 <= k < pre_open.len() && (#[trigger] pre_open[k]).position == v;
                    assert(k != head - 1);
                }
                // a labeled cell no longer queued was popped at or below
                // this entry's cost
                assert forall|a: int, b: int|
                    g_score.in_bounds(a, b) && #[trigger] g_score.at(a, b) is Some && !in_open(
                        open@,
                        head as int,
                        (a as usize, b as usize),
                    ) implies g_score.at(a, b)->Some_0 <= node.cost by {
                    if in_open(open@, head - 1, (a as usize, b as usize)) {
                        let k = choose|k: int|
                            head - 1 <= k < open@.len() && (#[trigger] open@[k]).position == (
                            a as usize,
                            b as usize,
                            );
                        assert(k == head - 1);
                        assert(g_score.at(a, b) == Some(node.cost));
                    }
                }
            }
            let mut dir: usize = 0;
            while dir < 4
                invariant
                    self.maps_wf(),
                    w == self.map.width,
                    h == self.map.height,
                    size == w * h,
                    size <= 16777216,
                    self.map.in_bounds(start.0 as int, start.1 as int),
                    self.map.in_bounds(goal.0 as int, goal.1 as int),
                    self.map.in_bounds(position.0 as int, position.1 as int),
                    g_score.wf() && g_score.width == w && g_score.height == h,
                    came_from.wf() && came_from.width == w && came_from.height == h,
                    head <= open@.len(),
                    dir <= 4,
                    1 <= labeled,
                    labeled == labeled_count(g_score.cells@),
                    labeled <= size,
                    g_score.at(start.0 as int, start.1 as int) == Some(0usize),
                    came_from.at(start.0 as int, start.1 as int) is None,
                    g_score.at(position.0 as int, position.1 as int) == Some(node.cost),
                    node.cost < labeled,
                    lab0 <= labeled,
                    len0 <= open@.len(),
                    labeled == lab0 ==> open@.len() == len0,
                    forall|k: int|
                        0 <= k < open@.len() ==> {
                            let nd = #[trigger] open@[k];
                            &&& self.map.in_bounds(nd.position.0 as int, nd.position.1 as int)
                            &&& g_score.at(nd.position.0 as int, nd.position.1 as int) == Some(
                                nd.cost,
                            )
                        },
                    forall|a: int, b: int|
                        g_score.in_bounds(a, b) && #[trigger] g_score.at(a, b) is Some
                            ==> g_score.at(a, b)->Some_0 < labeled,
                    forall|a: int, b: int|
                        g_score.in_bounds(a, b) && #[trigger] g_score.at(a, b) is Some && (a
                            != start.0 as int || b != start.1 as int) ==> came_from.at(
                            a,
                            b,
                        ) is Some,
                    head >= 1,
                    open@[head - 1] == node,
                    node.position == position,
                    forall|k1: int, k2: int|
                        0 <= k1 <= k2 < open@.len() ==> (#[trigger] open@[k1]).cost <= (
                        #[trigger] open@[k2]).cost,
                    forall|k: int|
                        0 <= k < open@.len() ==> (#[trigger] open@[k]).cost <= node.cost + 1,
                    forall|a: int, b: int|
                        g_score.in_bounds(a, b) && #[trigger] g_score.at(a, b) is Some && !in_open(
                            open@,
                            head as int,
                            (a as usize, b as usize),
                        ) ==> g_score.at(a, b)->Some_0 <= node.cost,
                    // the cell being expanded has its first `dir` directions done
                    forall|dd: int|
                        0 <= dd < dir && passable(
                            self.map,
                            self.discovered,
                            #[trigger] step_of(w as int, h as int, p2i(position), dd),
                            avoid_fog,
                        ) ==> g_score.at(
                            step_of(w as int, h as int, p2i(position), dd).0,
                            step_of(w as int, h as int, p2i(position), dd).1,
                        ) is Some && g_score.at(
                            step_of(w as int, h as int, p2i(position), dd).0,
                            step_of(w as int, h as int, p2i(position), dd).1,
                        )->Some_0 <= node.cost + 1,
                    forall|a: int, b: int|
                        g_score.in_bounds(a, b) && #[trigger] g_score.at(a, b) is Some && (a
                            != position.0 as int || b != position.1 as int) ==> (in_open(
                            open@,
                            head as int,
                            (a as usize, b as usize),
                        ) || expanded(self.map, self.discovered, avoid_fog, g_score, a, b)),
                    forall|a: int, b: int|
                        came_from.in_bounds(a, b) && #[trigger] came_from.at(a, b) is Some ==> {
                            let q = came_from.at(a, b)->Some_0;
                            &&& self.map.in_bounds(q.0 as int, q.1 as int)
                            &&& adjacent_wrapped(w as int, h as int, p2i(q), (a, b))
                            &&& passable(self.map, self.discovered, (a, b), avoid_fog)
                            &&& g_score.at(a, b) is Some
                            &&& g_score.at(q.0 as int, q.1 as int) is Some
                            &&& g_score.at(a, b)->Some_0 == g_score.at(
                                q.0 as int,
                                q.1 as int,
                            )->Some_0 + 1
                        },
                decreases 4 - dir,
            {
                let q = wrap_step(w, h, position, dir);
                let qc = self.map.get(q.0, q.1);
                if !matches!(qc, Cell::Obstacle) && (!avoid_fog || self.discovered.is_discovered(
                    q.0,
                    q.1,
                )) {
                    if !g_score.get(q.0, q.1).is_none() {
                        // already labeled: queued entries sit within one of
                        // the popped cost, popped ones at or below it
                        proof {
                            if in_open(open@, head as int, q) {
                                let k = choose|k: int|
                                    head <= k < open@.len() && (#[trigger] open@[k]).position
                                        == q;
                                assert(g_score.at(q.0 as int, q.1 as int) == Some(open@[k].cost));
                            }
                            assert(g_score.at(q.0 as int, q.1 as int)->Some_0 <= node.cost + 1);
                        }
                    }
                    if g_score.get(q.0, q.1).is_none() {
                        let ghost gs0 = g_score;
                        let ghost open0 = open@;
                        proof {
                            lemma_flat_index_in_range(q.0 as int, q.1 as int, w as int, h as int);
                            lemma_labeled_count_update(
                                g_score.cells@,
                                q.1 as int * w as int + q.0 as int,
                                Some((node.cost + 1) as usize),
                            );
                            lemma_labeled_count_le_len(g_score.cells@.update(
                                q.1 as int * w as int + q.0 as int,
                                Some((node.cost + 1) as usize),
                            ));
                        }
                        came_from.set(q.0, q.1, Some(position));
                        g_score.set(q.0, q.1, Some(node.cost + 1));
                        labeled = labeled + 1;
                        open.push(
                            Node {
                                cost: node.cost + 1,
                                position: q,
                                priority: node.cost + 1 + Self::heuristic(q, goal),
                            },
                        );
                        proof {
                            assert(open@[open@.len() - 1].position == q);
                            assert(in_open(open@, head as int, q));
                            // labels only grow, and never change value
                            assert forall|i: int, j: int|
                                gs0.in_bounds(i, j) && #[trigger] gs0.at(i, j)
                                    is Some implies g_score.at(i, j) == gs0.at(i, j) by {
                                assert(i != q.0 as int || j != q.1 as int);
                            }
                            // the closure survives: the fresh cell is queued,
                            // everything else keeps its witness
                            assert forall|a: int, b: int|
                                g_score.in_bounds(a, b) && #[trigger] g_score.at(a, b) is Some
                                    && (a != position.0 as int || b != position.1 as int)
                                    implies (in_open(
                                open@,
                                head as int,
                                (a as usize, b as usize),
                            ) || expanded(
                                self.map,
                                self.discovered,
                                avoid_fog,
                                g_score,
                                a,
                                b,
                            )) by {
                                if a == q.0 as int && b == q.1 as int {
                                    assert((a as usize, b as usize) == q);
                                } else {
                                    assert(gs0.at(a, b) is Some);
                                    if in_open(open0, head as int, (a as usize, b as usize)) {
                                        let k = choose|k: int|
                                            head <= k < open0.len() && (#[trigger] open0[
                                                k
                                            ]).position == (a as usize, b as usize);
                                        assert(open@[k].position == (a as usize, b as usize));
                                        assert(in_open(open@, head as int, (a as usize, b as usize)));
                                    } else {
                                        lemma_expanded_monotone(
                                            self.map,
                                            self.discovered,
                                            avoid_fog,
                                            gs0,
                                            g_score,
                                            a,
                                            b,
                                        );
                                    }
                                }
                            }
                            // cells outside the queue keep their popped bound
                            assert forall|a: int, b: int|
                                g_score.in_bounds(a, b) && #[trigger] g_score.at(a, b) is Some
                                    && !in_open(open@, head as int, (a as usize, b as usize))
                                    implies g_score.at(a, b)->Some_0 <= node.cost by {
                                assert((a as usize, b as usize) != q);
                                assert(gs0.at(a, b) is Some);
                                if in_open(open0, head as int, (a as usize, b as usize)) {
                                    let k = choose|k: int|
                                        head <= k < open0.len() && (#[trigger] open0[k]).position
                                            == (a as usize, b as usize);
                                    assert(open@[k].position == (a as usize, b as usize));
                                }
                            }
                            // queued entries keep their recorded costs
                            assert forall|k: int| 0 <= k < open@.len() implies {
                                let nd = #[trigger] open@[k];
                                &&& self.map.in_bounds(nd.position.0 as int, nd.position.1 as int)
                                &&& g_score.at(nd.position.0 as int, nd.position.1 as int) == Some(
                                    nd.cost,
                                )
                            } by {
                                if k < open@.len() - 1 {
                                    let nd = open0[k];
                                    assert(open@[k] == nd);
                                    assert(gs0.at(nd.position.0 as int, nd.position.1 as int)
                                        == Some(nd.cost));
                                    assert(nd.position.0 as int != q.0 as int || nd.position.1 as int
                                        != q.1 as int);
                                }
                            }
                        }
                    }
                }
                dir = dir + 1;
            }
            proof {
                assert(expanded(
                    self.map,
                    self.discovered,
                    avoid_fog,
                    g_score,
                    position.0 as int,
                    position.1 as int,
                ));
            }
        }

        // the whole reachable region is labeled and expanded now
        let glen_opt = g_score.get(goal.0, goal.1);
        if glen_opt.is_none() {
            proof {
                assert forall|p: Seq<(usize, usize)>| !is_route(
                    self.map,
                    self.discovered,
                    avoid_fog,
                    start,
                    goal,
                    p,
                ) by {
                    if is_route(self.map, self.discovered, avoid_fog, start, goal, p) {
                        assert forall|a: int, b: int|
                            g_score.in_bounds(a, b) && #[trigger] g_score.at(a, b)
                                is Some implies expanded(
                            self.map,
                            self.discovered,
                            avoid_fog,
                            g_score,
                            a,
                            b,
                        ) by {
                            assert(!in_open(open@, head as int, (a as usize, b as usize)));
                        }
                        lemma_route_stays_labeled(
                            self.map,
                            self.discovered,
                            avoid_fog,
                            g_score,
                            p,
                            p.len() - 1,
                        );
                    }
                }
            }
            return None;
        }
        let glen = glen_opt.unwrap();

        // walk the predecessor chain from the goal back to the start
        let mut rev: Vec<(usize, usize)> = Vec::new();
        rev.push(goal);
        let mut cur = goal;
        let mut steps: usize = 0;
        let mut done = false;
        while !done && steps <= size
            invariant
                self.maps_wf(),
                w == self.map.width,
                h == self.map.height,
                size == w * h,
                g_score.wf() && g_score.width == w && g_score.height == h,
                came_from.wf() && came_from.width == w && came_from.height == h,
                self.map.in_bounds(cur.0 as int, cur.1 as int),
                g_score.at(start.0 as int, start.1 as int) == Some(0usize),
                came_from.at(start.0 as int, start.1 as int) is None,
                g_score.at(goal.0 as int, goal.1 as int) == Some(glen),
                glen < size,
                g_score.at(cur.0 as int, cur.1 as int) is Some,
                g_score.at(cur.0 as int, cur.1 as int)->Some_0 + rev@.len() == glen + 1,
                cur == start || came_from.at(cur.0 as int, cur.1 as int) is Some,
                done ==> came_from.at(cur.0 as int, cur.1 as int) is None,
                steps == rev@.len() - 1,
                rev@.len() >= 1,
                rev@[0] == goal,
                rev@[rev@.len() - 1] == cur,
                forall|k: int|
                    0 <= k < rev@.len() ==> self.map.in_bounds(
                        #[trigger] rev@[k].0 as int,
                        rev@[k].1 as int,
                    ),
                forall|k: int|
                    0 <= k < rev@.len() - 1 ==> adjacent_wrapped(
                        w as int,
                        h as int,
                        p2i(rev@[k + 1]),
                        #[trigger] p2i(rev@[k]),
                    ) && passable(self.map, self.discovered, p2i(rev@[k]), avoid_fog),
                forall|a: int, b: int|
                    came_from.in_bounds(a, b) && #[trigger] came_from.at(a, b) is Some ==> {
                        let q = came_from.at(a, b)->Some_0;
                        &&& self.map.in_bounds(q.0 as int, q.1 as int)
                        &&& adjacent_wrapped(w as int, h as int, p2i(q), (a, b))
                        &&& passable(self.map, self.discovered, (a, b), avoid_fog)
                        &&& g_score.at(a, b) is Some
                        &&& g_score.at(q.0 as int, q.1 as int) is Some
                        &&& g_score.at(a, b)->Some_0 == g_score.at(
                            q.0 as int,
                            q.1 as int,
                        )->Some_0 + 1
                    },
                forall|a: int, b: int|
                    g_score.in_bounds(a, b) && #[trigger] g_score.at(a, b) is Some && (a
                        != start.0 as int || b != start.1 as int) ==> came_from.at(a, b) is Some,
            decreases (if done { 0int } else { 1int }), size + 1 - steps,
        {
            match came_from.get(cur.0, cur.1) {
                Some(prev) => {
                    rev.push(prev);
                    cur = prev;
                    steps = steps + 1;
                },
                None => {
                    done = true;
                },
            }
        }
        proof {
            // the chain shortens the cost label by one per step and the
            // label is below the grid size, so the budget never ran out
            assert(done);
        }
        // the only parentless chain entry is the start cell
        let n = rev.len();
        let mut path: Vec<(usize, usize)> = Vec::new();
        let mut k: usize = 0;
        while k < n
            invariant
                n == rev@.len(),
                1 <= n,
                k <= n,
                path@.len() == k,
                forall|m: int| 0 <= m < k ==> path@[m] == rev@[n - 1 - m],
            decreases n - k,
        {
            path.push(rev[n - 1 - k]);
            k = k + 1;
        }
        proof {
            assert(cur == start);
            assert forall|m: int|
                1 <= m < path@.len() implies adjacent_wrapped(
                w as int,
                h as int,
                p2i(path@[m - 1]),
                #[trigger] p2i(path@[m]),
            ) && passable(self.map, self.discovered, p2i(path@[m]), avoid_fog) by {
                assert(path@[m] == rev@[n - 1 - m]);
                assert(path@[m - 1] == rev@[n - m]);
            }
            assert(valid_path(self.map, self.discovered, path@, avoid_fog));
            assert(path@[0] == rev@[n - 1] && rev@[n - 1] == cur);
            assert(is_route(self.map, self.discovered, avoid_fog, start, goal, path@));
            // no shorter route exists: every route stays on labeled cells
            // whose costs rise by at most one per step
            assert(path@.len() == glen + 1);
            assert forall|p: Seq<(usize, usize)>|
                is_route(self.map, self.discovered, avoid_fog, start, goal, p) implies p.len()
                >= path@.len() by {
                assert forall|a: int, b: int|
                    g_score.in_bounds(a, b) && #[trigger] g_score.at(a, b)
                        is Some implies expanded(
                    self.map,
                    self.discovered,
                    avoid_fog,
                    g_score,
                    a,
                    b,
                ) by {
                    assert(!in_open(open@, head as int, (a as usize, b as usize)));
                }
                lemma_route_stays_labeled(
                    self.map,
                    self.discovered,
                    avoid_fog,
                    g_score,
                    p,
                    p.len() - 1,
                );
                assert(g_score.at(goal.0 as int, goal.1 as int)->Some_0 <= g_score.at(
                    start.0 as int,
                    start.1 as int,
                )->Some_0 + p.len() - 1);
            }
        }
        Some(path)
    }

    /// One step of movement toward a target: the next cell of a best path
    /// if one exists and its first step is passable, the current position
    /// otherwise (pathfinding failure is a "wait", not an error).
    pub fn move_robot_towards_target(
        &self,
        x: usize,
        y: usize,
        target_x: usize,
        target_y: usize,
        avoid_fog: bool,
    ) -> (r: (usize, usize))
        requires
            self.maps_wf(),
            self.map.in_bounds(x as int, y as int),
            self.map.in_bounds(target_x as int, target_y as int),
        ensures
            r == (x, y) || {
                &&& self.map.in_bounds(r.0 as int, r.1 as int)
                &&& adjacent_wrapped(
                    self.map.width as int,
                    self.map.height as int,
                    (x as int, y as int),
                    p2i(r),
                )
                &&& self.map.cell(r.0 as int, r.1 as int) != Cell::Obstacle
                &&& (avoid_fog ==> self.discovered.at(r.0 as int, r.1 as int))
                // the step is no blind guess: a walkable route continues
                // from it to the target, and it is one step shorter than
                // any route from the old position - the robot came
                // strictly closer by path length
                &&& exists|rest: Seq<(usize, usize)>|
                    valid_path(self.map, self.discovered, rest, avoid_fog) && rest[0] == r
                        && rest[rest.len() - 1] == (target_x, target_y) && (forall|
                        q: Seq<(usize, usize)>,
                    |
                        is_route(
                            self.map,
                            self.discovered,
                            avoid_fog,
                            (x, y),
                            (target_x, target_y),
                            q,
                        ) ==> q.len() >= rest.len() + 1)
            },
            // when the target is elsewhere and reachable, the robot moves
            (self.map.width >= 2 && self.map.height >= 2 && (x, y) != (target_x, target_y) && (
            exists|p: Seq<(usize, usize)>|
                is_route(self.map, self.discovered, avoid_fog, (x, y), (target_x, target_y), p)))
                ==> r != (x, y),
    {
        match self.a_star_pathfinding((x, y), (target_x, target_y), avoid_fog) {
            Some(path) => {
                if path.len() > 1 {
                    let step = path[1];
                    let c = self.map.get(step.0, step.1);
                    if !matches!(c, Cell::Obstacle) && (!avoid_fog
                        || self.discovered.is_discovered(step.0, step.1)) {
                        proof {
                            let rest = path@.subrange(1, path@.len() as int);
                            assert(valid_path(self.map, self.discovered, rest, avoid_fog)
                                && rest[0] == step && rest[rest.len() - 1] == (
                            target_x,
                            target_y,
                            ) && (forall|q: Seq<(usize, usize)>|
                                is_route(
                                    self.map,
                                    self.discovered,
                                    avoid_fog,
                                    (x, y),
                                    (target_x, target_y),
                                    q,
                                ) ==> q.len() >= rest.len() + 1)) by {
                                assert forall|k: int|
                                    1 <= k < rest.len() implies adjacent_wrapped(
                                    self.map.width as int,
                                    self.map.height as int,
                                    p2i(rest[k - 1]),
                                    #[trigger] p2i(rest[k]),
                                ) && passable(
                                    self.map,
                                    self.discovered,
                                    p2i(rest[k]),
                                    avoid_fog,
                                ) by {
                                    assert(rest[k] == path@[k + 1]);
                                    assert(rest[k - 1] == path@[k]);
                                }
                            }
                            if self.map.width >= 2 && self.map.height >= 2 {
                                assert(adjacent_wrapped(
                                    self.map.width as int,
                                    self.map.height as int,
                                    (x as int, y as int),
                                    p2i(step),
                                ));
                                assert(step != (x, y));
                            }
                        }
                        return step;
                    }
                    // a best path's first step is always passable
                    proof {
                        assert(passable(self.map, self.discovered, p2i(path@[1]), avoid_fog));
                        assert(false);
                    }
                    (x, y)
                } else {
                    // a one-cell path means the robot already stands on
                    // the target
                    proof {
                        assert(path@[0] == (x, y) && path@[path@.len() - 1] == (
                        target_x,
                        target_y,
                        ));
                    }
                    (x, y)
                }
            },
            None => {
                // no route: wait in place this tick
                (x, y)
            },
        }
    }

    /// One random exploration step: a uniformly drawn direction, taken
    /// only if the destination is walkable (Empty, Energy, Crystal or
    /// Base — never an Obstacle or a Reserved cell).
    pub fn move_robot_randomly(
        rng: &mut crate::rng::SimRng,
        map: &Grid,
        x: usize,
        y: usize,
    ) -> (r: (usize, usize))
        requires
            map.wf(),
            map.in_bounds(x as int, y as int),
        ensures
            map.in_bounds(r.0 as int, r.1 as int),
            // the result is exactly one direction's outcome: the drawn
            // neighbor when walkable, the old position otherwise
            exists|dir: int|
                0 <= dir < 4 && p2i(r) == random_step_outcome(
                    *map,
                    (x as int, y as int),
                    dir,
                ),
            r == (x, y) || {
                &&& adjacent_wrapped(map.width as int, map.height as int, (x as int, y as int), p2i(r))
                &&& walkable(map.cell(r.0 as int, r.1 as int))
            },
    {
        let dir = crate::rng::draw_below(rng, 4);
        let q = wrap_step(map.width, map.height, (x, y), dir);
        let c = map.get(q.0, q.1);
        if matches!(c, Cell::Empty | Cell::Energy | Cell::Crystal | Cell::Base) {
            proof {
                assert(p2i(q) == random_step_outcome(*map, (x as int, y as int), dir as int));
            }
            q
        } else {
            proof {
                assert(p2i((x, y)) == random_step_outcome(*map, (x as int, y as int), dir as int));
            }
            (x, y)
        }
    }
}

} // verus!
