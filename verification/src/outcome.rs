//! The search as a function of its input: what each step does to the
//! state, and what the search returns after how many steps.

use vstd::prelude::*;
use crate::grid::{cols, open_neighbors, rows};
use crate::heuristic::estimate;
use crate::progress::{cost_at, unknown_cells, Search};
use crate::pathfinding::{ancestor, chain_ends, Node, UNKNOWN};

verus! {

/// Entry `i` has the least priority of the frontier, and is the first
/// such entry.
pub open spec fn is_first_min(frontier: Seq<Node>, i: int) -> bool {
    &&& 0 <= i < frontier.len()
    &&& forall|j: int|
        0 <= j < frontier.len() ==> frontier[i].priority <= (#[trigger] frontier[j]).priority
    &&& forall|j: int| 0 <= j < i ==> frontier[i].priority < (#[trigger] frontier[j]).priority
}

/// The index of the entry that leaves the frontier next.
pub open spec fn first_min(frontier: Seq<Node>) -> int {
    choose|i: int| is_first_min(frontier, i)
}

/// A frontier has one first entry of least priority.
pub proof fn lemma_first_min_unique(frontier: Seq<Node>, i: int)
    requires
        is_first_min(frontier, i),
    ensures
        i == first_min(frontier),
{
    let k = first_min(frontier);
    assert(is_first_min(frontier, k));
    if i < k {
        assert(frontier[k].priority < frontier[i].priority);
        assert(frontier[i].priority <= frontier[k].priority);
    }
    if k < i {
        assert(frontier[i].priority < frontier[k].priority);
        assert(frontier[k].priority <= frontier[i].priority);
    }
}

/// The frontier entry for `next` when it is reached from `here`.
pub open spec fn entry_for(s: Search, here: (usize, usize), next: (usize, usize)) -> Node {
    Node {
        position: next,
        cost: (cost_at(s.costs, here) + 1) as u64,
        priority: ((cost_at(s.costs, here) + 1) * 65536 + estimate(next, s.goal)) as u128,
    }
}

/// The state after looking at the neighbour `next` of `here`: where the
/// way over `here` is shorter than the best known, it is recorded and
/// `next` enters the frontier.
pub open spec fn relax(s: Search, here: (usize, usize), next: (usize, usize)) -> Search {
    let e = entry_for(s, here, next);
    if cost_at(s.costs, here) + 1 < cost_at(s.costs, next) {
        Search {
            costs: s.costs.update(
                next.0 as int,
                s.costs[next.0 as int].update(next.1 as int, e.cost),
            ),
            preds: s.preds.update(
                next.0 as int,
                s.preds[next.0 as int].update(next.1 as int, Some(here)),
            ),
            frontier: s.frontier.push(e),
            ..s
        }
    } else {
        s
    }
}

/// The state after looking at the neighbours `near` of `here` in turn.
pub open spec fn expand(s: Search, here: (usize, usize), near: Seq<(usize, usize)>) -> Search
    decreases near.len(),
{
    if near.len() == 0 {
        s
    } else {
        relax(expand(s, here, near.drop_last()), here, near.last())
    }
}

/// The entry that leaves the frontier next is at the goal.
pub open spec fn at_goal(s: Search) -> bool {
    s.frontier.len() > 0 && s.frontier[first_min(s.frontier)].position == s.goal
}

/// One step of the search: the first entry of least priority leaves the
/// frontier and its cell is expanded.
pub open spec fn step(s: Search) -> Search {
    let idx = first_min(s.frontier);
    let here = s.frontier[idx].position;
    expand(Search { frontier: s.frontier.remove(idx), ..s }, here, open_neighbors(s.grid, here))
}

/// The route that the predecessor table holds for the goal, start first.
pub open spec fn route_of(s: Search) -> Seq<(usize, usize)> {
    let n = choose|n: nat| chain_ends(s.preds, s.goal, n);
    Seq::new(n + 1, |j: int| ancestor(s.preds, s.goal, (n - j) as nat))
}

/// What the search returns from state `s` if it ends within `fuel` steps:
/// nothing when the frontier is empty, the recorded route when the goal
/// leaves the frontier.
pub open spec fn run(s: Search, fuel: nat) -> Option<Option<Seq<(usize, usize)>>>
    decreases fuel,
{
    if s.frontier.len() == 0 {
        Some(None)
    } else if at_goal(s) {
        Some(Some(route_of(s)))
    } else if fuel == 0 {
        None
    } else {
        run(step(s), (fuel - 1) as nat)
    }
}

/// A table of the grid's shape with the same value in every entry.
pub open spec fn blank<T>(g: Seq<Seq<u8>>, fill: T) -> Seq<Seq<T>> {
    Seq::new(rows(g), |i: int| Seq::new(cols(g), |j: int| fill))
}

/// The state in which a search begins: only the start is known, at cost
/// zero, and it alone is in the frontier.
pub open spec fn initial(g: Seq<Seq<u8>>, start: (usize, usize), goal: (usize, usize)) -> Search {
    let costs = blank(g, UNKNOWN).update(
        start.0 as int,
        blank(g, UNKNOWN)[start.0 as int].update(start.1 as int, 0),
    );
    Search {
        grid: g,
        costs,
        preds: blank(g, None),
        frontier: seq![Node { position: start, cost: 0, priority: estimate(start, goal) as u128 }],
        start,
        goal,
        limit: unknown_cells(costs),
    }
}

/// `result` is what the search from `start` to `goal` returns.
pub open spec fn is_outcome(
    g: Seq<Seq<u8>>,
    start: (usize, usize),
    goal: (usize, usize),
    result: Option<Seq<(usize, usize)>>,
) -> bool {
    exists|fuel: nat| #[trigger] run(initial(g, start, goal), fuel) == Some(result)
}

/// A search that has ended within some number of steps gives the same
/// result within any larger number.
pub proof fn lemma_run_settles(
    s: Search,
    fuel: nat,
    more: nat,
    result: Option<Seq<(usize, usize)>>,
)
    requires
        run(s, fuel) == Some(result),
        fuel <= more,
    ensures
        run(s, more) == Some(result),
    decreases fuel,
{
    if s.frontier.len() > 0 && !at_goal(s) && fuel > 0 {
        lemma_run_settles(step(s), (fuel - 1) as nat, (more - 1) as nat, result);
    }
}

/// The search is a function of the grid and the two cells: any two of its
/// results on the same input are the same route, or both none.
pub proof fn lemma_search_repeatable(
    g: Seq<Seq<u8>>,
    start: (usize, usize),
    goal: (usize, usize),
    first: Option<Seq<(usize, usize)>>,
    second: Option<Seq<(usize, usize)>>,
)
    requires
        is_outcome(g, start, goal, first),
        is_outcome(g, start, goal, second),
    ensures
        first == second,
{
    let s = initial(g, start, goal);
    let a = choose|fuel: nat| #[trigger] run(s, fuel) == Some(first);
    let b = choose|fuel: nat| #[trigger] run(s, fuel) == Some(second);
    if a <= b {
        lemma_run_settles(s, a, b, first);
    } else {
        lemma_run_settles(s, b, a, second);
    }
}

/// The view of a search result: the route as a sequence, if there is one.
pub open spec fn route_view(result: Option<Vec<(usize, usize)>>) -> Option<Seq<(usize, usize)>> {
    match result {
        Some(route) => Some(route@),
        None => None,
    }
}

} // verus!
