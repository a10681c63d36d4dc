//! What holds of a search between two of its steps, and what follows from
//! it when the search ends.

use vstd::prelude::*;
use crate::grid::{
    adjacent, cols, in_bounds, is_route, lemma_open_neighbors, manhattan, open_neighbors,
    passable, rows, well_formed, MAX_DIM,
};
use crate::heuristic::{is_estimate, lemma_estimate_admissible};
use crate::pathfinding::{ancestor, pred_at, updated, Node, UNKNOWN};
use crate::tally::{lemma_tally_bound, lemma_tally_update, tally};

verus! {

/// The state of a search, as the proofs see it.
pub struct Search {
    /// The grid that is searched.
    pub grid: Seq<Seq<u8>>,
    /// The best known cost of each cell, `UNKNOWN` where there is none.
    pub costs: Seq<Seq<u64>>,
    /// The cell from which each cell was reached at its best known cost.
    pub preds: Seq<Seq<Option<(usize, usize)>>>,
    /// The entries that wait to be expanded, in the order of insertion.
    pub frontier: Seq<Node>,
    pub start: (usize, usize),
    pub goal: (usize, usize),
    /// A bound on any known cost plus the number of cells still unknown.
    pub limit: nat,
}

/// The best known cost of `cell`.
pub open spec fn cost_at(costs: Seq<Seq<u64>>, cell: (usize, usize)) -> u64 {
    costs[cell.0 as int][cell.1 as int]
}

/// A table has one entry for each cell of the grid.
pub open spec fn shaped<T>(table: Seq<Seq<T>>, g: Seq<Seq<u8>>) -> bool {
    &&& table.len() == rows(g)
    &&& forall|i: int| 0 <= i < table.len() ==> (#[trigger] table[i]).len() == cols(g)
}

/// Weighs a cost by itself: the sum of these falls with every improvement.
pub open spec fn by_cost() -> spec_fn(u64) -> nat {
    |v: u64| v as nat
}

/// Weighs an unknown cost by one and a known one by nothing.
pub open spec fn by_unknown() -> spec_fn(u64) -> nat {
    |v: u64| if v == UNKNOWN { 1nat } else { 0nat }
}

/// The number of cells of unknown cost.
pub open spec fn unknown_cells(costs: Seq<Seq<u64>>) -> nat {
    tally(costs, by_unknown())
}

/// The sum of the costs of all cells, which falls with every improvement.
pub open spec fn total_cost(costs: Seq<Seq<u64>>) -> nat {
    tally(costs, by_cost())
}

/// A frontier entry lies in the grid, its cost is known and not below the
/// best cost of its cell, and its priority is that cost plus the estimate.
pub open spec fn entry_ok(s: Search, e: Node) -> bool {
    &&& in_bounds(s.grid, e.position)
    &&& cost_at(s.costs, e.position) <= e.cost < UNKNOWN
    &&& is_estimate(e.position, s.goal, e.priority - e.cost * 65536)
}

/// The start has cost zero and no predecessor; a cell of unknown cost has
/// none either; any other cell is passable and its predecessor is a
/// neighbour of strictly lower cost.
pub open spec fn linked(s: Search, c: (usize, usize)) -> bool {
    if c == s.start {
        cost_at(s.costs, c) == 0 && pred_at(s.preds, c).is_none()
    } else if cost_at(s.costs, c) == UNKNOWN {
        pred_at(s.preds, c).is_none()
    } else {
        match pred_at(s.preds, c) {
            Some(p) => in_bounds(s.grid, p) && adjacent(p, c) && passable(s.grid, c) && cost_at(
                s.costs,
                p,
            ) < cost_at(s.costs, c),
            None => false,
        }
    }
}

/// The frontier holds an entry for `c` at cost `cost`.
pub open spec fn has_entry(frontier: Seq<Node>, c: (usize, usize), cost: int) -> bool {
    exists|i: int|
        0 <= i < frontier.len() && (#[trigger] frontier[i]).position == c && frontier[i].cost
            == cost
}

/// Every passable neighbour of `c` costs at most one step more than `c`.
pub open spec fn closed(s: Search, c: (usize, usize)) -> bool {
    forall|n: (usize, usize)|
        passable(s.grid, n) && adjacent(c, n) ==> #[trigger] cost_at(s.costs, n) <= cost_at(
            s.costs,
            c,
        ) + 1
}

/// A reached cell either waits in the frontier at its best cost or has
/// handed that cost on to its neighbours.
pub open spec fn settled(s: Search, c: (usize, usize)) -> bool {
    cost_at(s.costs, c) == UNKNOWN || has_entry(s.frontier, c, cost_at(s.costs, c) as int)
        || closed(s, c)
}

/// What holds of a search between two steps; while the cell `open` is
/// being expanded, it alone need not be settled.
pub open spec fn search_inv(s: Search, open: Option<(usize, usize)>) -> bool {
    &&& well_formed(s.grid)
    &&& rows(s.grid) <= MAX_DIM
    &&& cols(s.grid) <= MAX_DIM
    &&& in_bounds(s.grid, s.start)
    &&& in_bounds(s.grid, s.goal)
    &&& shaped(s.costs, s.grid)
    &&& shaped(s.preds, s.grid)
    &&& s.limit <= 0x4000_0000_0000_0000
    &&& forall|i: int| 0 <= i < s.frontier.len() ==> entry_ok(s, #[trigger] s.frontier[i])
    &&& forall|c: (usize, usize)| in_bounds(s.grid, c) ==> #[trigger] linked(s, c)
    &&& forall|c: (usize, usize)|
        in_bounds(s.grid, c) && Some(c) != open ==> #[trigger] settled(s, c)
    &&& forall|c: (usize, usize)|
        in_bounds(s.grid, c) && cost_at(s.costs, c) < UNKNOWN ==> #[trigger] cost_at(s.costs, c)
            + unknown_cells(s.costs) <= s.limit
    &&& cost_at(s.costs, s.goal) < UNKNOWN ==> exists|i: int|
        0 <= i < s.frontier.len() && (#[trigger] s.frontier[i]).position == s.goal
}

/// The state in which a search begins satisfies the invariant.
pub proof fn lemma_initial(s: Search, blank: Seq<Seq<u64>>)
    requires
        well_formed(s.grid),
        rows(s.grid) <= MAX_DIM,
        cols(s.grid) <= MAX_DIM,
        in_bounds(s.grid, s.start),
        in_bounds(s.grid, s.goal),
        shaped(blank, s.grid),
        shaped(s.preds, s.grid),
        forall|c: (usize, usize)| in_bounds(s.grid, c) ==> #[trigger] cost_at(blank, c) == UNKNOWN,
        updated(blank, s.costs, s.start, 0),
        forall|c: (usize, usize)| in_bounds(s.grid, c) ==> (#[trigger] pred_at(s.preds, c)).is_none(),
        s.frontier.len() == 1,
        s.frontier[0].position == s.start,
        s.frontier[0].cost == 0,
        is_estimate(s.start, s.goal, s.frontier[0].priority as int),
        s.limit == unknown_cells(s.costs),
    ensures
        search_inv(s, None),
{
    let h = rows(s.grid);
    let w = cols(s.grid);
    assert forall|i: int| 0 <= i < s.costs.len() implies (#[trigger] s.costs[i]).len() == w by {
        assert(blank[i].len() == w);
    }
    lemma_tally_bound(s.costs, w, by_unknown());
    assert(h * w <= 0x4000_0000_0000_0000) by (nonlinear_arith)
        requires
            h <= 0x7fff_ffff,
            w <= 0x7fff_ffff,
    ;
    assert forall|c: (usize, usize)| in_bounds(s.grid, c) implies cost_at(s.costs, c) == (if c
        == s.start {
        0
    } else {
        UNKNOWN
    }) by {
        assert(cost_at(blank, c) == UNKNOWN);
    }
    assert forall|c: (usize, usize)| in_bounds(s.grid, c) implies #[trigger] linked(s, c) by {
        assert(pred_at(s.preds, c).is_none());
    }
    assert forall|c: (usize, usize)| in_bounds(s.grid, c) implies #[trigger] settled(s, c) by {
        if c == s.start {
            assert(s.frontier[0].position == c);
        }
    }
    assert(entry_ok(s, s.frontier[0]));
    if cost_at(s.costs, s.goal) < UNKNOWN {
        assert(s.frontier[0].position == s.goal);
    }
}

/// Taking out a frontier entry that is not at the goal keeps the
/// invariant, but for the cell of that entry.
pub proof fn lemma_after_remove(s: Search, t: Search, idx: int)
    requires
        search_inv(s, None),
        0 <= idx < s.frontier.len(),
        s.frontier[idx].position != s.goal,
        t == (Search { frontier: s.frontier.remove(idx), ..s }),
    ensures
        search_inv(t, Some(s.frontier[idx].position)),
{
    let cur = s.frontier[idx].position;
    assert forall|i: int| 0 <= i < t.frontier.len() implies entry_ok(t, #[trigger] t.frontier[i]) by {
        if i < idx {
            assert(entry_ok(s, s.frontier[i]));
        } else {
            assert(entry_ok(s, s.frontier[i + 1]));
        }
    }
    assert forall|c: (usize, usize)| in_bounds(t.grid, c) implies #[trigger] linked(t, c) by {
        assert(linked(s, c));
    }
    assert forall|c: (usize, usize)| in_bounds(t.grid, c) && Some(c) != Some(cur) implies #[trigger] settled(
        t,
        c,
    ) by {
        assert(settled(s, c));
        let k = cost_at(s.costs, c) as int;
        if k != UNKNOWN && has_entry(s.frontier, c, k) {
            let i = choose|i: int|
                0 <= i < s.frontier.len() && (#[trigger] s.frontier[i]).position == c
                    && s.frontier[i].cost == k;
            if i < idx {
                assert(t.frontier[i] == s.frontier[i]);
            } else {
                assert(t.frontier[i - 1] == s.frontier[i]);
            }
        } else if k != UNKNOWN {
            assert(closed(s, c));
            assert(closed(t, c));
        }
    }
    if cost_at(s.costs, s.goal) < UNKNOWN {
        let i = choose|i: int|
            0 <= i < s.frontier.len() && (#[trigger] s.frontier[i]).position == s.goal;
        if i < idx {
            assert(t.frontier[i] == s.frontier[i]);
        } else {
            assert(t.frontier[i - 1] == s.frontier[i]);
        }
    }
}

/// Recording a lower cost for a neighbour `n` of the cell under expansion,
/// with that cell as its predecessor and a new frontier entry, keeps the
/// invariant and lowers the total of the costs.
pub proof fn lemma_after_improve(s: Search, t: Search, cur: (usize, usize), e: Node)
    requires
        search_inv(s, Some(cur)),
        in_bounds(s.grid, cur),
        passable(s.grid, e.position),
        adjacent(cur, e.position),
        cost_at(s.costs, cur) < UNKNOWN,
        e.cost == cost_at(s.costs, cur) + 1,
        e.cost < cost_at(s.costs, e.position),
        is_estimate(e.position, s.goal, e.priority - e.cost * 65536),
        t.grid == s.grid,
        t.start == s.start,
        t.goal == s.goal,
        t.limit == s.limit,
        t.frontier == s.frontier.push(e),
        updated(s.costs, t.costs, e.position, e.cost),
        updated(s.preds, t.preds, e.position, Some(cur)),
    ensures
        search_inv(t, Some(cur)),
        total_cost(t.costs) < total_cost(s.costs),
        forall|c: (usize, usize)|
            in_bounds(s.grid, c) ==> #[trigger] cost_at(t.costs, c) <= cost_at(s.costs, c),
        cost_at(t.costs, cur) == cost_at(s.costs, cur),
{
    let n = e.position;
    let w = cols(s.grid);
    let before = s.costs;
    let after = t.costs;
    assert(s.costs[n.0 as int].len() == w);
    assert(after =~= before.update(n.0 as int, before[n.0 as int].update(n.1 as int, e.cost)));
    lemma_tally_update(before, n.0 as int, n.1 as int, e.cost, by_cost());
    lemma_tally_update(before, n.0 as int, n.1 as int, e.cost, by_unknown());
    assert(before[n.0 as int][n.1 as int] == cost_at(s.costs, n));
    assert(unknown_cells(t.costs) + by_unknown()(cost_at(s.costs, n)) == unknown_cells(s.costs));
    assert forall|i: int| 0 <= i < t.costs.len() implies (#[trigger] t.costs[i]).len() == w by {
        assert(s.costs[i].len() == w);
    }
    assert forall|i: int| 0 <= i < t.preds.len() implies (#[trigger] t.preds[i]).len() == w by {
        assert(s.preds[i].len() == w);
    }
    assert forall|c: (usize, usize)| in_bounds(s.grid, c) implies #[trigger] cost_at(t.costs, c)
        == (if c == n {
        e.cost
    } else {
        cost_at(s.costs, c)
    }) by {
        assert(s.costs[c.0 as int].len() == w);
    }
    assert forall|c: (usize, usize)| in_bounds(s.grid, c) implies #[trigger] pred_at(t.preds, c)
        == (if c == n {
        Some(cur)
    } else {
        pred_at(s.preds, c)
    }) by {
        assert(s.preds[c.0 as int].len() == w);
    }
    assert(linked(s, s.start));
    assert(n != s.start);
    assert(n != cur);
    assert(cost_at(s.costs, cur) + unknown_cells(s.costs) <= s.limit);
    assert forall|i: int| 0 <= i < t.frontier.len() implies entry_ok(t, #[trigger] t.frontier[i]) by {
        if i < s.frontier.len() {
            assert(entry_ok(s, s.frontier[i]));
            assert(cost_at(t.costs, s.frontier[i].position) <= cost_at(s.costs, s.frontier[i].position));
        }
    }
    assert forall|c: (usize, usize)| in_bounds(t.grid, c) implies #[trigger] linked(t, c) by {
        assert(linked(s, c));
        if c != n && c != s.start && cost_at(s.costs, c) != UNKNOWN {
            let p = pred_at(s.preds, c).unwrap();
            assert(cost_at(t.costs, p) <= cost_at(s.costs, p));
        }
    }
    assert forall|c: (usize, usize)| in_bounds(t.grid, c) && Some(c) != Some(cur) implies #[trigger] settled(
        t,
        c,
    ) by {
        if c == n {
            assert(t.frontier[s.frontier.len() as int] == e);
        } else {
            assert(settled(s, c));
            let k = cost_at(s.costs, c) as int;
            if k != UNKNOWN && has_entry(s.frontier, c, k) {
                let i = choose|i: int|
                    0 <= i < s.frontier.len() && (#[trigger] s.frontier[i]).position == c
                        && s.frontier[i].cost == k;
                assert(t.frontier[i] == s.frontier[i]);
            } else if k != UNKNOWN {
                assert(closed(s, c));
                assert forall|m: (usize, usize)| passable(t.grid, m) && adjacent(c, m) implies #[trigger] cost_at(
                    t.costs,
                    m,
                ) <= cost_at(t.costs, c) + 1 by {
                    assert(cost_at(s.costs, m) <= cost_at(s.costs, c) + 1);
                }
            }
        }
    }
    assert forall|c: (usize, usize)|
        in_bounds(t.grid, c) && cost_at(t.costs, c) < UNKNOWN implies #[trigger] cost_at(
        t.costs,
        c,
    ) + unknown_cells(t.costs) <= t.limit by {
        if c != n {
            assert(cost_at(s.costs, c) + unknown_cells(s.costs) <= s.limit);
        } else if cost_at(s.costs, n) < UNKNOWN {
            assert(cost_at(s.costs, n) + unknown_cells(s.costs) <= s.limit);
        }
    }
    if cost_at(t.costs, t.goal) < UNKNOWN {
        if n == t.goal {
            assert(t.frontier[s.frontier.len() as int].position == t.goal);
        } else {
            let i = choose|i: int|
                0 <= i < s.frontier.len() && (#[trigger] s.frontier[i]).position == s.goal;
            assert(t.frontier[i].position == t.goal);
        }
    }
}

/// Once every passable neighbour of the cell under expansion costs at
/// most one step more than it, the invariant holds of every cell again.
pub proof fn lemma_after_expand(s: Search, cur: (usize, usize))
    requires
        search_inv(s, Some(cur)),
        in_bounds(s.grid, cur),
        forall|j: int|
            0 <= j < open_neighbors(s.grid, cur).len() ==> cost_at(
                s.costs,
                #[trigger] open_neighbors(s.grid, cur)[j],
            ) <= cost_at(s.costs, cur) + 1,
    ensures
        search_inv(s, None),
{
    lemma_open_neighbors(s.grid, cur);
    assert forall|n: (usize, usize)| passable(s.grid, n) && adjacent(cur, n) implies #[trigger] cost_at(
        s.costs,
        n,
    ) <= cost_at(s.costs, cur) + 1 by {
        assert(open_neighbors(s.grid, cur).contains(n));
        let j = choose|j: int|
            0 <= j < open_neighbors(s.grid, cur).len() && open_neighbors(s.grid, cur)[j] == n;
        assert(cost_at(s.costs, open_neighbors(s.grid, cur)[j]) <= cost_at(s.costs, cur) + 1);
    }
    assert(closed(s, cur));
    assert forall|c: (usize, usize)| in_bounds(s.grid, c) implies #[trigger] settled(s, c) by {
        if c != cur {
            assert(Some(c) != Some(cur));
        }
    }
}

/// A cell `i` steps along a route is at most as many orthogonal steps from
/// the goal as the route has left.
pub proof fn lemma_route_remainder(
    g: Seq<Seq<u8>>,
    route: Seq<(usize, usize)>,
    start: (usize, usize),
    goal: (usize, usize),
    i: int,
)
    requires
        is_route(g, route, start, goal),
        0 <= i < route.len(),
    ensures
        manhattan(route[i], goal) <= route.len() - 1 - i,
    decreases route.len() - i,
{
    if i < route.len() - 1 {
        lemma_route_remainder(g, route, start, goal, i + 1);
        assert(adjacent(route[i], route[i + 1]));
    }
}

/// Along any route, either some cell up to the `i`-th waits in the
/// frontier at a cost of at most its place in the route, or the `i`-th
/// cell is known at a cost of at most `i`.
pub proof fn lemma_reach(s: Search, route: Seq<(usize, usize)>, i: int)
    requires
        search_inv(s, None),
        is_route(s.grid, route, s.start, s.goal),
        0 <= i < route.len(),
    ensures
        waits_before(s, route, i) || (cost_at(s.costs, route[i]) < UNKNOWN && cost_at(
            s.costs,
            route[i],
        ) <= i),
    decreases i,
{
    if i == 0 {
        assert(linked(s, s.start));
    } else {
        lemma_reach(s, route, i - 1);
        let c = route[i - 1];
        let prev = i - 1;
        if waits_before(s, route, prev) {
            let (a, j) = choose|a: int, j: int| #[trigger] waits_at(s, route, prev, a, j);
            assert(waits_at(s, route, i, a, j));
        } else {
            if i - 1 > 0 {
                assert(passable(s.grid, route[i - 1]));
            }
            assert(in_bounds(s.grid, c));
            assert(settled(s, c));
            assert(cost_at(s.costs, c) + unknown_cells(s.costs) <= s.limit);
            let k = cost_at(s.costs, c) as int;
            if has_entry(s.frontier, c, k) {
                let j = choose|j: int|
                    0 <= j < s.frontier.len() && (#[trigger] s.frontier[j]).position == c
                        && s.frontier[j].cost == k;
                assert(waits_at(s, route, i, i - 1, j));
            } else {
                assert(closed(s, c));
                assert(adjacent(route[i - 1], route[i]));
                assert(passable(s.grid, route[i]));
                assert(cost_at(s.costs, route[i]) <= cost_at(s.costs, c) + 1);
            }
        }
    }
}

/// Frontier entry `j` is at the `a`-th cell of the route, `a` at most `i`,
/// at a cost of at most `a`.
pub open spec fn waits_at(s: Search, route: Seq<(usize, usize)>, i: int, a: int, j: int) -> bool {
    &&& 0 <= a <= i
    &&& a < route.len()
    &&& 0 <= j < s.frontier.len()
    &&& s.frontier[j].position == route[a]
    &&& s.frontier[j].cost <= a
}

/// Some frontier entry is at a cell of the route up to the `i`-th, at a
/// cost of at most the place of that cell.
pub open spec fn waits_before(s: Search, route: Seq<(usize, usize)>, i: int) -> bool {
    exists|a: int, j: int| #[trigger] waits_at(s, route, i, a, j)
}

/// When an entry at the goal has the least priority of the frontier, no
/// route from start to goal has fewer steps than the goal's cost.
pub proof fn lemma_found(s: Search, idx: int, route: Seq<(usize, usize)>)
    requires
        search_inv(s, None),
        0 <= idx < s.frontier.len(),
        s.frontier[idx].position == s.goal,
        forall|j: int|
            0 <= j < s.frontier.len() ==> s.frontier[idx].priority <= (#[trigger] s.frontier[j]).priority,
        is_route(s.grid, route, s.start, s.goal),
    ensures
        cost_at(s.costs, s.goal) <= route.len() - 1,
{
    let last = route.len() - 1;
    lemma_reach(s, route, last);
    let top = s.frontier[idx];
    assert(entry_ok(s, top));
    if waits_before(s, route, last) {
        let (a, j) = choose|a: int, j: int| #[trigger] waits_at(s, route, last, a, j);
        let e = s.frontier[j];
        assert(entry_ok(s, e));
        lemma_route_remainder(s.grid, route, s.start, s.goal, a);
        lemma_estimate_admissible(e.position, s.goal, e.priority - e.cost * 65536);
        assert(top.priority <= e.priority);
        assert(top.priority - top.cost * 65536 >= 0);
    }
}

/// When the frontier is empty, there is no route from start to goal.
pub proof fn lemma_exhausted(s: Search, route: Seq<(usize, usize)>)
    requires
        search_inv(s, None),
        s.frontier.len() == 0,
    ensures
        !is_route(s.grid, route, s.start, s.goal),
{
    if is_route(s.grid, route, s.start, s.goal) {
        let last = route.len() - 1;
        lemma_reach(s, route, last);
        if waits_before(s, route, last) {
            let (a, j) = choose|a: int, j: int| #[trigger] waits_at(s, route, last, a, j);
        }
    }
}

/// The predecessor chain of the first `k` ancestors of the goal is sound:
/// none is the start, each is passable and one step from the next.
pub open spec fn climbs(s: Search, k: nat) -> bool {
    &&& forall|j: nat| j <= k ==> in_bounds(s.grid, #[trigger] ancestor(s.preds, s.goal, j))
    &&& forall|j: nat|
        j < k ==> {
            &&& (#[trigger] ancestor(s.preds, s.goal, j)) != s.start
            &&& pred_at(s.preds, ancestor(s.preds, s.goal, j)).is_some()
            &&& passable(s.grid, ancestor(s.preds, s.goal, j))
            &&& adjacent(ancestor(s.preds, s.goal, j + 1), ancestor(s.preds, s.goal, j))
        }
}

/// From a goal of known cost the predecessor chain climbs to the start in
/// at most as many links as the goal's cost.
pub proof fn lemma_climb(s: Search, k: nat) -> (n: nat)
    requires
        search_inv(s, None),
        climbs(s, k),
        cost_at(s.costs, ancestor(s.preds, s.goal, k)) < UNKNOWN,
        cost_at(s.costs, ancestor(s.preds, s.goal, k)) + k <= cost_at(s.costs, s.goal),
    ensures
        climbs(s, n),
        ancestor(s.preds, s.goal, n) == s.start,
        pred_at(s.preds, s.start).is_none(),
        n <= cost_at(s.costs, s.goal),
    decreases cost_at(s.costs, ancestor(s.preds, s.goal, k)),
{
    let c = ancestor(s.preds, s.goal, k);
    assert(in_bounds(s.grid, c));
    assert(linked(s, c));
    assert(linked(s, s.start));
    if c == s.start {
        k
    } else {
        let p = pred_at(s.preds, c).unwrap();
        assert(ancestor(s.preds, s.goal, k + 1) == p);
        assert forall|j: nat| j <= k + 1 implies in_bounds(
            s.grid,
            #[trigger] ancestor(s.preds, s.goal, j),
        ) by {
            if j <= k {
            }
        }
        lemma_climb(s, k + 1)
    }
}


} // verus!
