//! Grid walkability and best-first route search over the 8-connected grid.

use vstd::prelude::*;
use crate::tiledmap::TiledMap;

verus! {

/// An integer grid coordinate.
#[derive(Clone, Copy, Debug, Default, PartialEq, Eq, Hash, Structural)]
pub struct TilePosition {
    pub x: i32,
    pub y: i32,
}

/// An entry of the search frontier: a tile and its priority, the cost to
/// reach it plus its heuristic distance to the goal.
#[derive(Clone, Copy, Debug, PartialEq, Eq, Structural)]
pub struct State {
    pub cost: u128,
    pub position: TilePosition,
}

/// A snapshot of the route search: the frontier in insertion order, the best
/// known cost of each grid cell (by row-major index) and the tile it was
/// reached from, and whether the goal has been taken off the frontier.
pub struct SearchState {
    pub frontier: Seq<State>,
    pub cost: Seq<Option<u64>>,
    pub parent: Seq<TilePosition>,
    pub found: bool,
}

pub open spec fn cost_of(o: Option<u64>) -> int {
    match o {
        Some(c) => c as int,
        None => 0,
    }
}

/// Weight of a cell in the search's termination measure: its cost once
/// reached, `n` before.
pub open spec fn weight(o: Option<u64>, n: nat) -> int {
    match o {
        Some(c) => c as int,
        None => n as int,
    }
}

/// Number of cells reached so far.
pub open spec fn count_seen(c: Seq<Option<u64>>) -> nat
    decreases c.len(),
{
    if c.len() == 0 {
        0
    } else {
        count_seen(c.drop_last()) + if c.last() is Some {
            1nat
        } else {
            0nat
        }
    }
}

pub open spec fn weight_sum(c: Seq<Option<u64>>, n: nat) -> int
    decreases c.len(),
{
    if c.len() == 0 {
        0
    } else {
        weight_sum(c.drop_last(), n) + weight(c.last(), n)
    }
}

/// Index of the first frontier entry of least priority.
pub open spec fn min_index(f: Seq<State>) -> int
    decreases f.len(),
{
    if f.len() <= 1 {
        0
    } else {
        let j = min_index(f.drop_last());
        if f.last().cost < f[j].cost {
            f.len() - 1
        } else {
            j
        }
    }
}

pub open spec fn done(s: SearchState) -> bool {
    s.found || s.frontier.len() == 0
}

pub open spec fn reversed<T>(s: Seq<T>) -> Seq<T> {
    Seq::new(s.len(), |i: int| s[s.len() - 1 - i])
}

proof fn lemma_min_index(f: Seq<State>)
    requires
        f.len() > 0,
    ensures
        0 <= min_index(f) < f.len(),
    decreases f.len(),
{
    if f.len() > 1 {
        lemma_min_index(f.drop_last());
    }
}

proof fn lemma_count_update(c: Seq<Option<u64>>, i: int, v: u64)
    requires
        0 <= i < c.len(),
    ensures
        count_seen(c.update(i, Some(v))) == count_seen(c) + if c[i] is None {
            1nat
        } else {
            0nat
        },
    decreases c.len(),
{
    if i == c.len() - 1 {
        assert(c.update(i, Some(v)).drop_last() =~= c.drop_last());
    } else {
        assert(c.update(i, Some(v)).drop_last() =~= c.drop_last().update(i, Some(v)));
        lemma_count_update(c.drop_last(), i, v);
    }
}

proof fn lemma_weight_update(c: Seq<Option<u64>>, n: nat, i: int, v: u64)
    requires
        0 <= i < c.len(),
    ensures
        weight_sum(c.update(i, Some(v)), n) == weight_sum(c, n) - weight(c[i], n) + v,
    decreases c.len(),
{
    if i == c.len() - 1 {
        assert(c.update(i, Some(v)).drop_last() =~= c.drop_last());
    } else {
        assert(c.update(i, Some(v)).drop_last() =~= c.drop_last().update(i, Some(v)));
        lemma_weight_update(c.drop_last(), n, i, v);
    }
}

proof fn lemma_count_pos(c: Seq<Option<u64>>, i: int)
    requires
        0 <= i < c.len(),
        c[i] is Some,
    ensures
        count_seen(c) >= 1,
    decreases c.len(),
{
    if i < c.len() - 1 {
        lemma_count_pos(c.drop_last(), i);
    }
}

proof fn lemma_count_le(c: Seq<Option<u64>>)
    ensures
        count_seen(c) <= c.len(),
    decreases c.len(),
{
    if c.len() > 0 {
        lemma_count_le(c.drop_last());
    }
}

proof fn lemma_weight_nonneg(c: Seq<Option<u64>>, n: nat)
    ensures
        weight_sum(c, n) >= 0,
    decreases c.len(),
{
    if c.len() > 0 {
        lemma_weight_nonneg(c.drop_last(), n);
    }
}

proof fn lemma_neighbours_adjacent(a: TilePosition, q: TilePosition)
    requires
        0 <= a.x < i32::MAX,
        0 <= a.y < i32::MAX,
    ensures
        adjacent(a, q) <==> neighbour_seq(a).contains(q),
{
    let nb = neighbour_seq(a);
    if adjacent(a, q) {
        let dx = q.x - a.x;
        let dy = q.y - a.y;
        let j: int = if dx == -1 {
            if dy == -1 {
                0
            } else if dy == 0 {
                1
            } else {
                2
            }
        } else if dx == 0 {
            if dy == -1 {
                3
            } else {
                4
            }
        } else {
            if dy == -1 {
                5
            } else if dy == 0 {
                6
            } else {
                7
            }
        };
        assert(nb[j] == q);
    }
    if nb.contains(q) {
        let j = choose|j: int| 0 <= j < nb.len() && nb[j] == q;
        assert(adjacent(a, nb[j]));
    }
}

/// Route search over the walkable tiles of a map.
pub struct Pathfinder {
    tilemap: TiledMap,
}

pub open spec fn abs(v: int) -> int {
    if v < 0 {
        -v
    } else {
        v
    }
}

/// Manhattan distance between two tiles.
pub open spec fn manhattan(a: TilePosition, b: TilePosition) -> int {
    abs(b.x - a.x) + abs(b.y - a.y)
}

/// Two distinct tiles that touch by a side or a corner.
pub open spec fn adjacent(a: TilePosition, b: TilePosition) -> bool {
    a != b && abs(a.x - b.x) <= 1 && abs(a.y - b.y) <= 1
}

pub open spec fn offset(a: TilePosition, dx: int, dy: int) -> TilePosition {
    TilePosition { x: (a.x + dx) as i32, y: (a.y + dy) as i32 }
}

/// The eight neighbours of a tile, column by column from the top left.
pub open spec fn neighbour_seq(a: TilePosition) -> Seq<TilePosition> {
    seq![
        offset(a, -1, -1),
        offset(a, -1, 0),
        offset(a, -1, 1),
        offset(a, 0, -1),
        offset(a, 0, 1),
        offset(a, 1, -1),
        offset(a, 1, 0),
        offset(a, 1, 1),
    ]
}

/// A pathfinder over `tilemap`.
pub fn get_pathfinder(tilemap: TiledMap) -> (r: Pathfinder)
    ensures
        r.map() == tilemap,
{
    Pathfinder::new(tilemap)
}

/// Manhattan distance between two tiles.
pub fn heuristic(a: &TilePosition, b: &TilePosition) -> (r: i64)
    ensures
        r == manhattan(*a, *b),
{
    let dx = b.x as i64 - a.x as i64;
    let dy = b.y as i64 - a.y as i64;
    let ax = if dx < 0 {
        -dx
    } else {
        dx
    };
    let ay = if dy < 0 {
        -dy
    } else {
        dy
    };
    ax + ay
}

impl Pathfinder {
    /// The map this pathfinder searches.
    pub closed spec fn map(&self) -> TiledMap {
        self.tilemap
    }

    #[verifier::opaque]
    pub open spec fn walkable(&self, p: TilePosition) -> bool {
        self.map().walkable_at(p.x as int, p.y as int)
    }

    /// Every tile of `path` is walkable and follows the one before it (the
    /// first follows `start`) as an 8-neighbour.
    pub open spec fn is_route(&self, start: TilePosition, path: Seq<TilePosition>) -> bool {
        forall|i: int|
            0 <= i < path.len() ==> self.walkable(#[trigger] path[i]) && adjacent(
                if i == 0 {
                    start
                } else {
                    path[i - 1]
                },
                path[i],
            )
    }

    /// Some route leads from `start` to `goal`.
    pub open spec fn reachable(&self, start: TilePosition, goal: TilePosition) -> bool {
        exists|path: Seq<TilePosition>|
            #![trigger self.is_route(start, path)]
            path.len() > 0 && self.is_route(start, path) && path.last() == goal
    }

    /// Number of cells of the first layer.
    pub open spec fn n_cells(&self) -> nat {
        self.map().layers@[0].data.len() as nat
    }

    /// Row-major cell index of a tile.
    pub open spec fn idx(&self, p: TilePosition) -> int {
        self.map().layers@[0].cell_index(p.x as int, p.y as int)
    }

    pub open spec fn seen(&self, cost: Seq<Option<u64>>, p: TilePosition) -> bool {
        cost[self.idx(p)] is Some
    }

    /// The cost recorded for `p`, 0 where none is.
    pub open spec fn cost_at(&self, cost: Seq<Option<u64>>, p: TilePosition) -> nat {
        if 0 <= self.idx(p) < cost.len() {
            match cost[self.idx(p)] {
                Some(c) => c as nat,
                None => 0,
            }
        } else {
            0
        }
    }

    pub open spec fn in_frontier(&self, s: SearchState, p: TilePosition) -> bool {
        exists|k: int| 0 <= k < s.frontier.len() && (#[trigger] s.frontier[k]).position == p
    }

    /// Every walkable neighbour of `p` has been reached.
    pub open spec fn closed(&self, cost: Seq<Option<u64>>, p: TilePosition) -> bool {
        forall|q: TilePosition| #[trigger] adjacent(p, q) && self.walkable(q) ==> self.seen(cost, q)
    }

    /// Termination measure of the search.
    pub open spec fn potential(&self, s: SearchState) -> int {
        s.frontier.len() + weight_sum(s.cost, self.n_cells())
    }

    /// Consider `q` as a successor of `current`: record it, with `current` as
    /// its parent, when it is walkable and this is the cheapest way to it
    /// found so far.
    pub open spec fn relax(
        &self,
        s: SearchState,
        current: TilePosition,
        goal: TilePosition,
        q: TilePosition,
    ) -> SearchState {
        if !self.walkable(q) {
            s
        } else {
            let c = cost_of(s.cost[self.idx(current)]) + 1;
            let i = self.idx(q);
            if s.cost[i] is None || c < cost_of(s.cost[i]) {
                SearchState {
                    frontier: s.frontier.push(
                        State { cost: (c + manhattan(q, goal)) as u128, position: q },
                    ),
                    cost: s.cost.update(i, Some(c as u64)),
                    parent: s.parent.update(i, current),
                    found: s.found,
                }
            } else {
                s
            }
        }
    }

    /// Relax the first `i` neighbours of `current`.
    pub open spec fn expand(
        &self,
        s: SearchState,
        current: TilePosition,
        goal: TilePosition,
        i: nat,
    ) -> SearchState
        decreases i,
    {
        if i == 0 {
            s
        } else {
            self.relax(
                self.expand(s, current, goal, (i - 1) as nat),
                current,
                goal,
                neighbour_seq(current)[i - 1],
            )
        }
    }

    /// One round of the search: take the first entry of least priority off
    /// the frontier; stop on the goal, else relax its neighbours.
    pub open spec fn step(&self, s: SearchState, goal: TilePosition) -> SearchState {
        let k = min_index(s.frontier);
        let e = s.frontier[k];
        let popped = SearchState { frontier: s.frontier.remove(k), ..s };
        if e.position == goal {
            SearchState { found: true, ..popped }
        } else {
            self.expand(popped, e.position, goal, 8)
        }
    }

    /// At most `fuel` rounds of the search, fewer where it ends before.
    pub open spec fn run(&self, s: SearchState, goal: TilePosition, fuel: nat) -> SearchState
        decreases fuel,
    {
        if fuel == 0 || done(s) {
            s
        } else {
            self.run(self.step(s, goal), goal, (fuel - 1) as nat)
        }
    }

    pub open spec fn initial(&self, start: TilePosition) -> SearchState {
        SearchState {
            frontier: seq![State { cost: 0, position: start }],
            cost: Seq::new(
                self.n_cells(),
                |i: int|
                    if i == self.idx(start) {
                        Some(0u64)
                    } else {
                        None
                    },
            ),
            parent: Seq::new(self.n_cells(), |i: int| TilePosition { x: 0, y: 0 }),
            found: false,
        }
    }

    /// The state in which the search from `start` towards `goal` ends.
    pub open spec fn search_outcome(&self, start: TilePosition, goal: TilePosition) -> SearchState {
        let init = self.initial(start);
        self.run(init, goal, choose|f: nat| done(self.run(init, goal, f)))
    }

    /// The tiles from `start` (excluded) to `p`, following recorded parents
    /// back while the recorded cost falls.
    pub open spec fn trace_back(
        &self,
        parent: Seq<TilePosition>,
        cost: Seq<Option<u64>>,
        start: TilePosition,
        p: TilePosition,
    ) -> Seq<TilePosition>
        decreases self.cost_at(cost, p),
    {
        let q = parent[self.idx(p)];
        if p != start && self.cost_at(cost, q) < self.cost_at(cost, p) {
            self.trace_back(parent, cost, start, q).push(p)
        } else {
            seq![]
        }
    }

    /// The route that `find_path` returns: empty when an endpoint is not
    /// walkable or the goal is never taken off the frontier.
    pub open spec fn path_between(&self, start: TilePosition, goal: TilePosition) -> Seq<
        TilePosition,
    > {
        if self.walkable(start) && self.walkable(goal) {
            let fin = self.search_outcome(start, goal);
            if fin.found {
                self.trace_back(fin.parent, fin.cost, start, goal)
            } else {
                seq![]
            }
        } else {
            seq![]
        }
    }

    /// What holds of every state of the search except the one being expanded.
    pub open spec fn inv_core(&self, start: TilePosition, goal: TilePosition, s: SearchState) -> bool {
        &&& s.cost.len() == self.n_cells()
        &&& s.parent.len() == self.n_cells()
        &&& self.walkable(start)
        &&& s.cost[self.idx(start)] == Some(0u64)
        &&& forall|k: int|
            0 <= k < s.frontier.len() ==> self.walkable((#[trigger] s.frontier[k]).position)
                && self.seen(s.cost, s.frontier[k].position)
        &&& forall|p: TilePosition|
            #![trigger s.parent[self.idx(p)]]
            self.walkable(p) && self.seen(s.cost, p) && p != start ==> {
                let q = s.parent[self.idx(p)];
                &&& self.walkable(q)
                &&& adjacent(q, p)
                &&& self.seen(s.cost, q)
                &&& self.cost_at(s.cost, q) < self.cost_at(s.cost, p)
            }
        &&& forall|i: int| 0 <= i < s.cost.len() ==> cost_of(#[trigger] s.cost[i]) < count_seen(s.cost)
        &&& s.found ==> self.walkable(goal) && self.seen(s.cost, goal)
    }

    /// Invariant of the search between rounds.
    pub open spec fn inv(&self, start: TilePosition, goal: TilePosition, s: SearchState) -> bool {
        &&& self.inv_core(start, goal, s)
        &&& !s.found ==> {
            &&& forall|p: TilePosition|
                #![trigger self.seen(s.cost, p)]
                self.walkable(p) && self.seen(s.cost, p) ==> self.in_frontier(s, p) || self.closed(s.cost, p)
            &&& self.walkable(goal) && self.seen(s.cost, goal) ==> self.in_frontier(s, goal)
        }
    }

    proof fn lemma_idx(&self, p: TilePosition, q: TilePosition)
        requires
            self.walkable(p),
            self.walkable(q),
        ensures
            0 <= self.idx(p) < self.n_cells(),
            0 <= p.x < i32::MAX,
            0 <= p.y < i32::MAX,
            self.idx(p) == self.idx(q) ==> p == q,
    {
        reveal(Pathfinder::walkable);
        let w = self.map().layers@[0].width as int;
        let (px, py, qx, qy) = (p.x as int, p.y as int, q.x as int, q.y as int);
        assert(0 <= py * w) by (nonlinear_arith)
            requires
                0 <= py,
                0 <= w,
        ;
        if self.idx(p) == self.idx(q) {
            assert(py == qy) by (nonlinear_arith)
                requires
                    py * w + px == qy * w + qx,
                    0 <= px < w,
                    0 <= qx < w,
                    0 <= py,
                    0 <= qy,
            ;
        }
    }

    proof fn lemma_relax(
        &self,
        start: TilePosition,
        goal: TilePosition,
        s: SearchState,
        cur: TilePosition,
        q: TilePosition,
    )
        requires
            self.inv_core(start, goal, s),
            self.walkable(cur),
            self.seen(s.cost, cur),
            adjacent(cur, q),
        ensures
            ({
                let r = self.relax(s, cur, goal, q);
                &&& self.inv_core(start, goal, r)
                &&& r.cost[self.idx(cur)] == s.cost[self.idx(cur)]
                &&& self.potential(r) <= self.potential(s)
                &&& r.found == s.found
                &&& r.frontier.len() >= s.frontier.len()
                &&& forall|k: int| 0 <= k < s.frontier.len() ==> r.frontier[k] == s.frontier[k]
                &&& forall|p: TilePosition|
                    #![trigger self.seen(r.cost, p)]
                    self.walkable(p) && self.seen(s.cost, p) ==> self.seen(r.cost, p)
                &&& forall|p: TilePosition|
                    #![trigger self.seen(r.cost, p)]
                    self.walkable(p) && self.seen(r.cost, p) && !self.seen(s.cost, p) ==> self.in_frontier(
                        r,
                        p,
                    )
                &&& self.walkable(q) ==> self.seen(r.cost, q)
            }),
    {
        let r = self.relax(s, cur, goal, q);
        let n = self.n_cells();
        self.lemma_idx(cur, start);
        if self.walkable(q) {
            self.lemma_idx(q, cur);
            self.lemma_idx(q, start);
            self.lemma_idx(start, q);
            let c = cost_of(s.cost[self.idx(cur)]) + 1;
            let i = self.idx(q);
            assert(cost_of(s.cost[self.idx(cur)]) < count_seen(s.cost));
            lemma_count_le(s.cost);
            assert(c <= n);
            if s.cost[i] is None || c < cost_of(s.cost[i]) {
                lemma_count_update(s.cost, i, c as u64);
                lemma_count_le(r.cost);
                lemma_weight_update(s.cost, n, i, c as u64);
                assert(c <= n);
                assert forall|p: TilePosition|
                    #![trigger r.parent[self.idx(p)]]
                    self.walkable(p) && self.seen(r.cost, p) && p != start implies {
                        let pp = r.parent[self.idx(p)];
                        &&& self.walkable(pp)
                        &&& adjacent(pp, p)
                        &&& self.seen(r.cost, pp)
                        &&& self.cost_at(r.cost, pp) < self.cost_at(r.cost, p)
                    } by {
                    self.lemma_idx(p, q);
                    if p != q {
                        let pp = s.parent[self.idx(p)];
                        assert(self.seen(s.cost, p));
                        self.lemma_idx(pp, q);
                        self.lemma_idx(pp, p);
                    }
                }
                assert forall|k: int|
                    0 <= k < r.frontier.len() implies self.walkable(
                    (#[trigger] r.frontier[k]).position,
                ) && self.seen(r.cost, r.frontier[k].position) by {
                    if k < s.frontier.len() {
                        assert(r.frontier[k] == s.frontier[k]);
                        self.lemma_idx(s.frontier[k].position, q);
                    }
                }
                assert forall|p: TilePosition|
                    #![trigger self.seen(r.cost, p)]
                    self.walkable(p) && self.seen(s.cost, p) implies self.seen(r.cost, p) by {
                    self.lemma_idx(p, q);
                }
                assert forall|p: TilePosition|
                    #![trigger self.seen(r.cost, p)]
                    self.walkable(p) && self.seen(r.cost, p) && !self.seen(s.cost, p) implies self.in_frontier(
                    r,
                    p,
                ) by {
                    self.lemma_idx(p, q);
                    assert(r.frontier[r.frontier.len() - 1].position == q);
                }
                assert forall|i2: int| 0 <= i2 < r.cost.len() implies cost_of(
                    #[trigger] r.cost[i2],
                ) < count_seen(r.cost) by {
                    if i2 != i {
                        assert(cost_of(s.cost[i2]) < count_seen(s.cost));
                    }
                }
            }
        }
    }

    proof fn lemma_expand(
        &self,
        start: TilePosition,
        goal: TilePosition,
        s: SearchState,
        cur: TilePosition,
        i: nat,
    )
        requires
            self.inv_core(start, goal, s),
            self.walkable(cur),
            self.seen(s.cost, cur),
            i <= 8,
        ensures
            ({
                let r = self.expand(s, cur, goal, i);
                &&& self.inv_core(start, goal, r)
                &&& r.cost[self.idx(cur)] == s.cost[self.idx(cur)]
                &&& self.potential(r) <= self.potential(s)
                &&& r.found == s.found
                &&& r.frontier.len() >= s.frontier.len()
                &&& forall|k: int| 0 <= k < s.frontier.len() ==> r.frontier[k] == s.frontier[k]
                &&& forall|p: TilePosition|
                    #![trigger self.seen(r.cost, p)]
                    self.walkable(p) && self.seen(s.cost, p) ==> self.seen(r.cost, p)
                &&& forall|p: TilePosition|
                    #![trigger self.seen(r.cost, p)]
                    self.walkable(p) && self.seen(r.cost, p) && !self.seen(s.cost, p) ==> self.in_frontier(
                        r,
                        p,
                    )
                &&& forall|j: int|
                    0 <= j < i && self.walkable(neighbour_seq(cur)[j]) ==> self.seen(r.cost,
                        #[trigger] neighbour_seq(cur)[j],
                    )
            }),
        decreases i,
    {
        if i > 0 {
            let prev = self.expand(s, cur, goal, (i - 1) as nat);
            let q = neighbour_seq(cur)[i - 1];
            self.lemma_idx(cur, cur);
            self.lemma_expand(start, goal, s, cur, (i - 1) as nat);
            lemma_neighbours_adjacent(cur, q);
            assert(neighbour_seq(cur).contains(q)) by {
                assert(neighbour_seq(cur)[i - 1] == q);
            }
            self.lemma_relax(start, goal, prev, cur, q);
            let r = self.expand(s, cur, goal, i);
            assert forall|p: TilePosition|
                #![trigger self.seen(r.cost, p)]
                self.walkable(p) && self.seen(r.cost, p) && !self.seen(s.cost, p) implies self.in_frontier(
                r,
                p,
            ) by {
                if self.seen(prev.cost, p) {
                    let k = choose|k: int|
                        0 <= k < prev.frontier.len() && (#[trigger] prev.frontier[k]).position == p;
                    assert(r.frontier[k] == prev.frontier[k]);
                }
            }
        }
    }

    /// Taking one entry off the frontier keeps the invariant's core.
    proof fn lemma_pop(&self, start: TilePosition, goal: TilePosition, s: SearchState, k: int)
        requires
            self.inv_core(start, goal, s),
            0 <= k < s.frontier.len(),
        ensures
            self.inv_core(start, goal, SearchState { frontier: s.frontier.remove(k), ..s }),
    {
        let popped = SearchState { frontier: s.frontier.remove(k), ..s };
        assert forall|k2: int|
            0 <= k2 < popped.frontier.len() implies self.walkable(
            (#[trigger] popped.frontier[k2]).position,
        ) && self.seen(popped.cost, popped.frontier[k2].position) by {
            if k2 < k {
                assert(popped.frontier[k2] == s.frontier[k2]);
            } else {
                assert(popped.frontier[k2] == s.frontier[k2 + 1]);
            }
        }
        assert forall|p: TilePosition|
            #![trigger popped.parent[self.idx(p)]]
            self.walkable(p) && self.seen(popped.cost, p) && p != start implies {
                let q = popped.parent[self.idx(p)];
                &&& self.walkable(q)
                &&& adjacent(q, p)
                &&& self.seen(popped.cost, q)
                &&& self.cost_at(popped.cost, q) < self.cost_at(popped.cost, p)
            } by {
            assert(self.seen(s.cost, p));
        }
    }

    proof fn lemma_step(&self, start: TilePosition, goal: TilePosition, s: SearchState)
        requires
            self.inv(start, goal, s),
            !done(s),
        ensures
            self.inv(start, goal, self.step(s, goal)),
            self.potential(self.step(s, goal)) < self.potential(s),
    {
        let k = min_index(s.frontier);
        lemma_min_index(s.frontier);
        let e = s.frontier[k];
        let popped = SearchState { frontier: s.frontier.remove(k), ..s };
        self.lemma_pop(start, goal, s, k);
        assert(self.potential(popped) == self.potential(s) - 1);
        assert(self.walkable(s.frontier[k].position) && self.seen(s.cost, s.frontier[k].position));
        if e.position != goal {
            self.lemma_step_expand(start, goal, s, k);
        }
    }

    /// Relaxing the neighbours of the tile just taken off the frontier
    /// closes it and keeps every other reached tile on the frontier or closed.
    #[verifier::rlimit(30)]
    proof fn lemma_step_expand(&self, start: TilePosition, goal: TilePosition, s: SearchState, k: int)
        requires
            self.inv(start, goal, s),
            !s.found,
            0 <= k < s.frontier.len(),
            s.frontier[k].position != goal,
        ensures
            ({
                let popped = SearchState { frontier: s.frontier.remove(k), ..s };
                let r = self.expand(popped, s.frontier[k].position, goal, 8);
                &&& self.inv(start, goal, r)
                &&& self.potential(r) <= self.potential(popped)
            }),
    {
        let popped = SearchState { frontier: s.frontier.remove(k), ..s };
        let cur = s.frontier[k].position;
        self.lemma_pop(start, goal, s, k);
        assert(self.walkable(cur) && self.seen(s.cost, cur));
        self.lemma_idx(cur, cur);
        let r = self.expand(popped, cur, goal, 8);
        self.lemma_expand(start, goal, popped, cur, 8);
        assert forall|p: TilePosition|
            #![trigger self.in_frontier(popped, p)]
            self.in_frontier(s, p) && p != cur implies self.in_frontier(popped, p) by {
            let k2 = choose|k2: int|
                0 <= k2 < s.frontier.len() && (#[trigger] s.frontier[k2]).position == p;
            if k2 < k {
                assert(popped.frontier[k2] == s.frontier[k2]);
            } else {
                assert(popped.frontier[k2 - 1] == s.frontier[k2]);
            }
        }
        assert forall|p: TilePosition|
            #![trigger self.in_frontier(r, p)]
            self.in_frontier(popped, p) implies self.in_frontier(r, p) by {
            let k2 = choose|k2: int|
                0 <= k2 < popped.frontier.len() && (#[trigger] popped.frontier[k2]).position == p;
            assert(r.frontier[k2] == popped.frontier[k2]);
        }
        assert(self.closed(r.cost, cur)) by {
            assert forall|q: TilePosition|
                #[trigger] adjacent(cur, q) && self.walkable(q) implies self.seen(r.cost, q) by {
                lemma_neighbours_adjacent(cur, q);
                let j = choose|j: int| 0 <= j < neighbour_seq(cur).len() && neighbour_seq(cur)[j] == q;
                assert(self.seen(r.cost, neighbour_seq(cur)[j]));
            }
        }
        assert forall|p: TilePosition|
            #![trigger self.seen(r.cost, p)]
            self.walkable(p) && self.seen(r.cost, p) implies self.in_frontier(r, p) || self.closed(
            r.cost,
            p,
        ) by {
            if self.seen(s.cost, p) && p != cur {
                if self.in_frontier(s, p) {
                    assert(self.in_frontier(popped, p));
                } else {
                    assert forall|q: TilePosition|
                        #[trigger] adjacent(p, q) && self.walkable(q) implies self.seen(r.cost, q) by {
                        assert(self.seen(s.cost, q));
                    }
                }
            }
        }
        if self.walkable(goal) && self.seen(r.cost, goal) && self.seen(s.cost, goal) {
            assert(self.in_frontier(popped, goal));
        }
    }

    proof fn lemma_initial(&self, start: TilePosition, goal: TilePosition)
        requires
            self.walkable(start),
        ensures
            self.inv(start, goal, self.initial(start)),
    {
        let s = self.initial(start);
        self.lemma_idx(start, start);
        lemma_count_pos(s.cost, self.idx(start));
        assert forall|p: TilePosition|
            #![trigger self.seen(s.cost, p)]
            self.walkable(p) && self.seen(s.cost, p) implies p == start by {
            self.lemma_idx(p, start);
        }
        assert(s.frontier[0].position == start);
    }

    proof fn lemma_run_inv(&self, start: TilePosition, goal: TilePosition, s: SearchState, fuel: nat)
        requires
            self.inv(start, goal, s),
        ensures
            self.inv(start, goal, self.run(s, goal, fuel)),
        decreases fuel,
    {
        if fuel > 0 && !done(s) {
            self.lemma_step(start, goal, s);
            self.lemma_run_inv(start, goal, self.step(s, goal), (fuel - 1) as nat);
        }
    }

    proof fn lemma_run_next(&self, s: SearchState, goal: TilePosition, k: nat)
        requires
            !done(self.run(s, goal, k)),
        ensures
            self.run(s, goal, k + 1) == self.step(self.run(s, goal, k), goal),
        decreases k,
    {
        if k == 0 {
            assert(self.run(s, goal, 1) == self.run(self.step(s, goal), goal, 0));
        } else {
            assert(!done(s));
            assert(self.run(s, goal, k) == self.run(self.step(s, goal), goal, (k - 1) as nat));
            assert(self.run(s, goal, k + 1) == self.run(self.step(s, goal), goal, k));
            self.lemma_run_next(self.step(s, goal), goal, (k - 1) as nat);
        }
    }

    proof fn lemma_run_settled(&self, s: SearchState, goal: TilePosition, a: nat, b: nat)
        requires
            done(self.run(s, goal, a)),
            a <= b,
        ensures
            self.run(s, goal, b) == self.run(s, goal, a),
        decreases a,
    {
        if a > 0 && !done(s) {
            self.lemma_run_settled(self.step(s, goal), goal, (a - 1) as nat, (b - 1) as nat);
        }
    }

    /// The search ends within as many rounds as its termination measure.
    proof fn lemma_run_ends(&self, start: TilePosition, goal: TilePosition, s: SearchState)
        requires
            self.inv(start, goal, s),
        ensures
            self.potential(s) >= 0,
            done(self.run(s, goal, self.potential(s) as nat)),
        decreases self.potential(s),
    {
        lemma_weight_nonneg(s.cost, self.n_cells());
        if !done(s) {
            let t = self.step(s, goal);
            self.lemma_step(start, goal, s);
            lemma_weight_nonneg(t.cost, self.n_cells());
            self.lemma_run_ends(start, goal, t);
            self.lemma_run_settled(
                t,
                goal,
                self.potential(t) as nat,
                (self.potential(s) - 1) as nat,
            );
        }
    }

    proof fn lemma_outcome(&self, start: TilePosition, goal: TilePosition, k: nat)
        requires
            done(self.run(self.initial(start), goal, k)),
        ensures
            self.search_outcome(start, goal) == self.run(self.initial(start), goal, k),
    {
        let init = self.initial(start);
        let f = choose|f: nat| done(self.run(init, goal, f));
        if f <= k {
            self.lemma_run_settled(init, goal, f, k);
        } else {
            self.lemma_run_settled(init, goal, k, f);
        }
    }

    proof fn lemma_trace(&self, start: TilePosition, goal: TilePosition, s: SearchState, p: TilePosition)
        requires
            self.inv_core(start, goal, s),
            self.walkable(p),
            self.seen(s.cost, p),
        ensures
            ({
                let t = self.trace_back(s.parent, s.cost, start, p);
                &&& self.is_route(start, t)
                &&& p == start ==> t.len() == 0
                &&& p != start ==> t.len() > 0 && t.last() == p
            }),
        decreases self.cost_at(s.cost, p),
    {
        if p != start {
            let q = s.parent[self.idx(p)];
            self.lemma_trace(start, goal, s, q);
            let tq = self.trace_back(s.parent, s.cost, start, q);
            let t = self.trace_back(s.parent, s.cost, start, p);
            assert(t == tq.push(p));
            assert forall|i: int| 0 <= i < t.len() implies self.walkable(#[trigger] t[i]) && adjacent(
                if i == 0 {
                    start
                } else {
                    t[i - 1]
                },
                t[i],
            ) by {
                if i < tq.len() {
                    assert(t[i] == tq[i]);
                    assert(i > 0 ==> t[i - 1] == tq[i - 1]);
                }
            }
        }
    }

    proof fn lemma_route_seen(
        &self,
        start: TilePosition,
        goal: TilePosition,
        s: SearchState,
        path: Seq<TilePosition>,
        i: int,
    )
        requires
            self.inv(start, goal, s),
            !s.found,
            s.frontier.len() == 0,
            self.is_route(start, path),
            0 <= i < path.len(),
        ensures
            self.seen(s.cost, path[i]),
        decreases i,
    {
        let prev = if i == 0 {
            start
        } else {
            path[i - 1]
        };
        if i > 0 {
            self.lemma_route_seen(start, goal, s, path, i - 1);
        }
        assert(self.walkable(path[i]));
        assert(self.walkable(prev) && self.seen(s.cost, prev));
        assert(!self.in_frontier(s, prev));
        assert(adjacent(prev, path[i]));
    }

    /// The properties of the route search's result.
    proof fn lemma_path_between(&self, start: TilePosition, goal: TilePosition)
        ensures
            ({
                let r = self.path_between(start, goal);
                &&& !self.walkable(start) || !self.walkable(goal) || start == goal ==> r.len() == 0
                &&& r.len() > 0 ==> self.is_route(start, r) && r.last() == goal
                &&& self.walkable(start) && self.walkable(goal) && start != goal && self.reachable(
                    start,
                    goal,
                ) ==> r.len() > 0
            }),
    {
        if self.walkable(start) && self.walkable(goal) {
            let init = self.initial(start);
            self.lemma_initial(start, goal);
            self.lemma_run_ends(start, goal, init);
            let k = self.potential(init) as nat;
            self.lemma_outcome(start, goal, k);
            self.lemma_run_inv(start, goal, init, k);
            let fin = self.search_outcome(start, goal);
            if fin.found {
                self.lemma_trace(start, goal, fin, goal);
            } else if self.reachable(start, goal) {
                let path = choose|path: Seq<TilePosition>|
                    #![trigger self.is_route(start, path)]
                    path.len() > 0 && self.is_route(start, path) && path.last() == goal;
                self.lemma_route_seen(start, goal, fin, path, path.len() - 1);
            }
        }
    }

    pub fn new(map: TiledMap) -> (r: Pathfinder)
        ensures
            r.map() == map,
    {
        Pathfinder { tilemap: map }
    }

    /// Whether the tile `(x, y)` can be walked on; false outside the grid.
    pub fn tile_is_walkable(&self, x: i32, y: i32) -> (r: bool)
        ensures
            r == self.walkable(TilePosition { x, y }),
    {
        reveal(Pathfinder::walkable);
        if x < 0 || y < 0 {
            return false;
        }
        if self.tilemap.layers.len() == 0 || self.tilemap.tilesets.len() == 0 {
            return false;
        }
        let layer = &self.tilemap.layers[0];
        if layer.width > i32::MAX as i64 || layer.height > i32::MAX as i64 {
            return false;
        }
        if x as i64 >= layer.width || y as i64 >= layer.height {
            return false;
        }
        let w = layer.width as u64;
        assert(0 <= (y as int) * (w as int) <= (i32::MAX as int) * (i32::MAX as int))
            by (nonlinear_arith)
            requires
                0 <= y <= i32::MAX,
                0 <= w <= i32::MAX,
        ;
        let cell = (y as u64) * w + (x as u64);
        if cell >= layer.data.len() as u64 {
            return false;
        }
        let id = layer.get_tile_at(x as u32, y as u32);
        let tiles = &self.tilemap.tilesets[0].tiles;
        if id == 0 || id as usize > tiles.len() {
            return false;
        }
        let properties = &tiles[(id - 1) as usize].properties;
        if properties.len() == 0 {
            return false;
        }
        !properties[0].value
    }

    /// Row-major cell index of a walkable tile.
    fn tile_index(&self, p: &TilePosition) -> (r: usize)
        requires
            self.walkable(*p),
        ensures
            r == self.idx(*p),
            r < self.n_cells(),
    {
        proof {
            self.lemma_idx(*p, *p);
            reveal(Pathfinder::walkable);
        }
        let w = self.tilemap.layers[0].width as usize;
        let x = p.x as usize;
        let y = p.y as usize;
        assert(0 <= (y as int) * (w as int) <= (y as int) * (w as int) + x) by (nonlinear_arith)
            requires
                0 <= y,
                0 <= w,
                0 <= x,
        ;
        y * w + x
    }

    /// A route from `start` to `goal` by best-first search: the tiles after
    /// `start` up to and including `goal`. Empty when either end is not
    /// walkable, when `start == goal`, and when no route exists. The search
    /// takes the frontier entry of least cost plus Manhattan distance, the
    /// earliest inserted among equals, and stops when it takes the goal.
    pub fn find_path(&self, start: TilePosition, goal: TilePosition) -> (path: Vec<TilePosition>)
        ensures
            path@ == self.path_between(start, goal),
            !self.walkable(start) || !self.walkable(goal) || start == goal ==> path@.len() == 0,
            path@.len() > 0 ==> self.is_route(start, path@) && path@.last() == goal,
            self.walkable(start) && self.walkable(goal) && start != goal && self.reachable(
                start,
                goal,
            ) ==> path@.len() > 0,
    {
        proof {
            self.lemma_path_between(start, goal);
        }
        let mut path: Vec<TilePosition> = Vec::new();
        if !self.tile_is_walkable(goal.x, goal.y) {
            return path;
        }
        if !self.tile_is_walkable(start.x, start.y) {
            return path;
        }
        proof {
            reveal(Pathfinder::walkable);
        }
        let n = self.tilemap.layers[0].data.len();
        let mut cost: Vec<Option<u64>> = Vec::new();
        let mut parent: Vec<TilePosition> = Vec::new();
        let mut i: usize = 0;
        while i < n
            invariant
                i <= n,
                n == self.n_cells(),
                cost@.len() == i,
                parent@.len() == i,
                forall|j: int| 0 <= j < i ==> cost@[j] == None::<u64>,
                forall|j: int| 0 <= j < i ==> parent@[j] == (TilePosition { x: 0, y: 0 }),
            decreases n - i,
        {
            cost.push(None);
            parent.push(TilePosition { x: 0, y: 0 });
            i = i + 1;
        }
        let si = self.tile_index(&start);
        cost.set(si, Some(0));
        let mut frontier: Vec<State> = Vec::new();
        frontier.push(State { cost: 0, position: start });
        let mut found = false;
        let ghost init = self.initial(start);
        proof {
            assert(cost@ =~= init.cost);
            assert(parent@ =~= init.parent);
            assert(frontier@ =~= init.frontier);
            self.lemma_initial(start, goal);
        }
        let ghost mut rounds: nat = 0;
        while !found && frontier.len() > 0
            invariant
                self.walkable(start),
                self.walkable(goal),
                init == self.initial(start),
                self.inv(
                    start,
                    goal,
                    (SearchState { frontier: frontier@, cost: cost@, parent: parent@, found }),
                ),
                (SearchState { frontier: frontier@, cost: cost@, parent: parent@, found }) == self.run(
                    init,
                    goal,
                    rounds,
                ),
            decreases self.potential(
                (SearchState { frontier: frontier@, cost: cost@, parent: parent@, found }),
            ),
        {
            let ghost s = SearchState { frontier: frontier@, cost: cost@, parent: parent@, found };
            proof {
                self.lemma_run_next(init, goal, rounds);
                self.lemma_step(start, goal, s);
                lemma_min_index(frontier@);
                lemma_weight_nonneg(self.step(s, goal).cost, self.n_cells());
            }
            let mut best: usize = 0;
            let mut j: usize = 1;
            while j < frontier.len()
                invariant
                    1 <= j <= frontier@.len(),
                    best < j,
                    best == min_index(frontier@.subrange(0, j as int)),
                decreases frontier@.len() - j,
            {
                proof {
                    assert(frontier@.subrange(0, j + 1).drop_last() =~= frontier@.subrange(
                        0,
                        j as int,
                    ));
                }
                if frontier[j].cost < frontier[best].cost {
                    best = j;
                }
                j = j + 1;
            }
            proof {
                assert(frontier@.subrange(0, frontier@.len() as int) =~= frontier@);
                self.lemma_pop(start, goal, s, best as int);
            }
            let e = frontier.remove(best);
            if e.position == goal {
                found = true;
            } else {
                let cur = e.position;
                let ghost popped = SearchState {
                    frontier: frontier@,
                    cost: cost@,
                    parent: parent@,
                    found: false,
                };
                proof {
                    assert(self.walkable(s.frontier[best as int].position) && self.seen(
                        s.cost,
                        s.frontier[best as int].position,
                    ));
                    self.lemma_idx(cur, cur);
                    lemma_count_le(cost@);
                    assert(cost_of(cost@[self.idx(cur)]) < count_seen(cost@));
                }
                let ci = self.tile_index(&cur);
                let c: u64 = match cost[ci] {
                    Some(v) => v,
                    None => 0,
                };
                let nbs = self.get_neighbours(&cur);
                let mut k: usize = 0;
                while k < 8
                    invariant
                        k <= 8,
                        nbs@ == neighbour_seq(cur),
                        self.walkable(cur),
                        self.walkable(start),
                        self.inv_core(start, goal, popped),
                        self.seen(popped.cost, cur),
                        ci == self.idx(cur),
                        popped.cost[ci as int] == Some(c),
                        c < self.n_cells(),
                        (SearchState {
                            frontier: frontier@,
                            cost: cost@,
                            parent: parent@,
                            found: false,
                        }) == self.expand(popped, cur, goal, k as nat),
                    decreases 8 - k,
                {
                    proof {
                        self.lemma_expand(start, goal, popped, cur, k as nat);
                    }
                    let q = nbs[k];
                    if self.tile_is_walkable(q.x, q.y) {
                        let qi = self.tile_index(&q);
                        let nc = c + 1;
                        let better = match cost[qi] {
                            Some(known) => nc < known,
                            None => true,
                        };
                        if better {
                            cost.set(qi, Some(nc));
                            let h = heuristic(&q, &goal);
                            frontier.push(State { cost: nc as u128 + h as u128, position: q });
                            parent.set(qi, cur);
                        }
                    }
                    k = k + 1;
                }
            }
            proof {
                rounds = rounds + 1;
            }
        }
        proof {
            self.lemma_outcome(start, goal, rounds);
        }
        if !found {
            return path;
        }
        let ghost fin = SearchState { frontier: frontier@, cost: cost@, parent: parent@, found };
        let mut back: Vec<TilePosition> = Vec::new();
        let mut p = goal;
        proof {
            assert(self.trace_back(parent@, cost@, start, goal) =~= self.trace_back(
                parent@,
                cost@,
                start,
                p,
            ) + reversed(back@));
        }
        while p != start
            invariant
                self.inv_core(start, goal, fin),
                fin.cost == cost@,
                fin.parent == parent@,
                self.walkable(p),
                self.seen(cost@, p),
                self.trace_back(parent@, cost@, start, goal) == self.trace_back(
                    parent@,
                    cost@,
                    start,
                    p,
                ) + reversed(back@),
            decreases self.cost_at(cost@, p),
        {
            let pi = self.tile_index(&p);
            let q = parent[pi];
            proof {
                assert(q == fin.parent[self.idx(p)]);
                let tq = self.trace_back(parent@, cost@, start, q);
                assert(self.trace_back(parent@, cost@, start, p) == tq.push(p));
                assert(reversed(back@.push(p)) =~= seq![p] + reversed(back@));
                assert(tq.push(p) + reversed(back@) =~= tq + reversed(back@.push(p)));
            }
            back.push(p);
            p = q;
        }
        proof {
            assert(self.trace_back(parent@, cost@, start, p) =~= Seq::<TilePosition>::empty());
            assert(self.trace_back(parent@, cost@, start, goal) =~= reversed(back@));
        }
        let mut i = back.len();
        while i > 0
            invariant
                i <= back@.len(),
                path@ =~= reversed(back@).subrange(0, back@.len() - i),
            decreases i,
        {
            i = i - 1;
            path.push(back[i]);
        }
        proof {
            assert(reversed(back@).subrange(0, back@.len() as int) =~= reversed(back@));
        }
        path
    }

    /// The eight neighbours of `a`, in the order of `neighbour_seq`.
    pub fn get_neighbours(&self, a: &TilePosition) -> (r: Vec<TilePosition>)
        requires
            i32::MIN < a.x < i32::MAX,
            i32::MIN < a.y < i32::MAX,
        ensures
            r@ == neighbour_seq(*a),
    {
        let mut neighbours = Vec::new();
        neighbours.push(TilePosition { x: a.x - 1, y: a.y - 1 });
        neighbours.push(TilePosition { x: a.x - 1, y: a.y });
        neighbours.push(TilePosition { x: a.x - 1, y: a.y + 1 });
        neighbours.push(TilePosition { x: a.x, y: a.y - 1 });
        neighbours.push(TilePosition { x: a.x, y: a.y + 1 });
        neighbours.push(TilePosition { x: a.x + 1, y: a.y - 1 });
        neighbours.push(TilePosition { x: a.x + 1, y: a.y });
        neighbours.push(TilePosition { x: a.x + 1, y: a.y + 1 });
        neighbours
    }
}

} // verus!
