//! Best-first search for a shortest route between two cells of a grid.

use vstd::prelude::*;
use crate::grid::{
    adjacent, cols, grid_view, in_bounds, is_answer, is_route, lemma_open_neighbors,
    open_neighbors, open_shifted, passable, rows, well_formed, MAX_DIM,
};
use crate::heuristic::{heuristic, SCALE};
use crate::progress::{
    cost_at, entry_ok, lemma_after_expand, lemma_after_improve, lemma_after_remove, lemma_climb,
    lemma_exhausted, lemma_found, lemma_initial, search_inv, total_cost, unknown_cells, Search,
};
use crate::outcome::{
    at_goal, expand, first_min, initial, is_first_min, is_outcome, lemma_first_min_unique, relax,
    route_of, route_view, run, step,
};

verus! {

/// The passable cells one orthogonal step away from `position`, in the order
/// right, down, left, up.
pub fn neighbors(position: (usize, usize), matrix: &Vec<Vec<u8>>) -> (result: Vec<(usize, usize)>)
    requires
        well_formed(grid_view(matrix)),
    ensures
        result@ == open_neighbors(grid_view(matrix), position),
{
    let ghost g = grid_view(matrix);
    let (x, y) = position;
    let height = matrix.len();
    let width = matrix[0].len();
    let mut result: Vec<(usize, usize)> = Vec::new();
    assert(forall|i: int| 0 <= i < g.len() ==> (#[trigger] g[i]).len() == width);
    if x < height && width > 0 && y < width - 1 {
        assert(g[x as int].len() == width);
        if matrix[x][y + 1] == 0 {
            result.push((x, y + 1));
        }
    }
    assert(result@ =~= open_shifted(g, position, 0));
    if height > 1 && x < height - 1 && y < width {
        assert(g[x + 1].len() == width);
        if matrix[x + 1][y] == 0 {
            result.push((x + 1, y));
        }
    }
    assert(result@ =~= open_shifted(g, position, 0) + open_shifted(g, position, 1));
    if x < height && y >= 1 && y - 1 < width {
        assert(g[x as int].len() == width);
        if matrix[x][y - 1] == 0 {
            result.push((x, y - 1));
        }
    }
    assert(result@ =~= open_shifted(g, position, 0) + open_shifted(g, position, 1)
        + open_shifted(g, position, 2));
    if x >= 1 && x - 1 < height && y < width {
        assert(g[x - 1].len() == width);
        if matrix[x - 1][y] == 0 {
            result.push((x - 1, y));
        }
    }
    assert(result@ =~= open_neighbors(g, position));
    result
}

/// The entry of a predecessor table for `cell`.
pub open spec fn pred_at(table: Seq<Seq<Option<(usize, usize)>>>, cell: (usize, usize)) -> Option<
    (usize, usize),
> {
    table[cell.0 as int][cell.1 as int]
}

/// The entries of a table, row by row.
pub open spec fn table_view<T>(table: Seq<Vec<T>>) -> Seq<Seq<T>> {
    Seq::new(table.len(), |i: int| table[i]@)
}

/// `cell` indexes an entry of the table.
pub open spec fn in_table<T>(table: Seq<Seq<T>>, cell: (usize, usize)) -> bool {
    cell.0 < table.len() && cell.1 < table[cell.0 as int].len()
}

/// The cell reached from `cell` by following `k` predecessor links (fewer
/// where the chain ends before).
pub open spec fn ancestor(
    table: Seq<Seq<Option<(usize, usize)>>>,
    cell: (usize, usize),
    k: nat,
) -> (usize, usize)
    decreases k,
{
    if k == 0 {
        cell
    } else {
        let below = ancestor(table, cell, (k - 1) as nat);
        match pred_at(table, below) {
            Some(p) => p,
            None => below,
        }
    }
}

/// The chain of predecessors of `cell` stays inside the table and ends
/// after exactly `n` links at a cell without predecessor.
pub open spec fn chain_ends(
    table: Seq<Seq<Option<(usize, usize)>>>,
    cell: (usize, usize),
    n: nat,
) -> bool {
    &&& forall|k: nat| k <= n ==> in_table(table, #[trigger] ancestor(table, cell, k))
    &&& forall|k: nat| k < n ==> pred_at(table, #[trigger] ancestor(table, cell, k)).is_some()
    &&& pred_at(table, ancestor(table, cell, n)).is_none()
}

/// The chain of predecessors of `current`, turned round: it begins at the
/// cell without predecessor and ends at `current`.
pub fn reconstruct_path(came_from: Vec<Vec<Option<(usize, usize)>>>, current: (usize, usize)) -> (path:
    Vec<(usize, usize)>)
    requires
        exists|n: nat| chain_ends(table_view(came_from@), current, n),
    ensures
        forall|n: nat| #[trigger]
            chain_ends(table_view(came_from@), current, n) ==> {
                &&& path@.len() == n + 1
                &&& forall|j: int|
                    0 <= j <= n ==> path@[j] == ancestor(table_view(came_from@), current, (n - j) as nat)
            },
{
    let ghost links = table_view(came_from@);
    let ghost n: nat = choose|n: nat| chain_ends(links, current, n);
    let mut cursor = current;
    let mut trail: Vec<(usize, usize)> = Vec::new();
    trail.push(cursor);
    let ghost i: nat = 0;
    loop
        invariant
            links == table_view(came_from@),
            chain_ends(links, current, n),
            i <= n,
            cursor == ancestor(links, current, i),
            trail@.len() == i + 1,
            forall|j: int| 0 <= j <= i ==> trail@[j] == ancestor(links, current, j as nat),
        ensures
            i == n,
        decreases n - i,
    {
        assert(in_table(links, ancestor(links, current, i)));
        match came_from[cursor.0][cursor.1] {
            Some(next) => {
                assert(i < n);
                proof {
                    assert(ancestor(links, current, i + 1) == next);
                    i = i + 1;
                }
                cursor = next;
                trail.push(cursor);
            },
            None => {
                assert(i == n) by {
                    if i < n {
                        assert(pred_at(links, ancestor(links, current, i)).is_some());
                    }
                }
                break ;
            },
        }
    }
    let mut path: Vec<(usize, usize)> = Vec::new();
    let mut left: usize = trail.len();
    while left > 0
        invariant
            left <= trail@.len(),
            path@.len() == trail@.len() - left,
            forall|j: int| 0 <= j < path@.len() ==> path@[j] == trail@[trail@.len() - 1 - j],
        decreases left,
    {
        left = left - 1;
        path.push(trail[left]);
    }
    assert forall|m: nat| #[trigger] chain_ends(links, current, m) implies m == n by {
        if m < n {
            assert(pred_at(links, ancestor(links, current, m)).is_some());
        }
        if n < m {
            assert(pred_at(links, ancestor(links, current, n)).is_some());
        }
    }
    path
}

/// The cost of a cell that the search has not reached.
pub const UNKNOWN: u64 = 0xffff_ffff_ffff_ffff;

/// An entry of the frontier: a cell, the cost at which it was reached, and
/// its priority, the cost plus the estimate of the rest, in fixed point.
#[derive(Clone, Copy, Debug)]
pub struct Node {
    pub position: (usize, usize),
    pub cost: u64,
    pub priority: u128,
}

/// A table of the given shape with the same value in every entry.
pub fn make_table<T: Copy>(height: usize, width: usize, fill: T) -> (table: Vec<Vec<T>>)
    ensures
        table@.len() == height,
        forall|i: int| 0 <= i < height ==> (#[trigger] table@[i])@.len() == width,
        forall|i: int, j: int| 0 <= i < height && 0 <= j < width ==> #[trigger] table@[i]@[j] == fill,
{
    let mut table: Vec<Vec<T>> = Vec::new();
    let mut i: usize = 0;
    while i < height
        invariant
            i <= height,
            table@.len() == i,
            forall|a: int| 0 <= a < i ==> (#[trigger] table@[a])@.len() == width,
            forall|a: int, j: int| 0 <= a < i && 0 <= j < width ==> #[trigger] table@[a]@[j] == fill,
        decreases height - i,
    {
        let mut row: Vec<T> = Vec::new();
        let mut j: usize = 0;
        while j < width
            invariant
                j <= width,
                row@.len() == j,
                forall|b: int| 0 <= b < j ==> row@[b] == fill,
            decreases width - j,
        {
            row.push(fill);
            j = j + 1;
        }
        table.push(row);
        i = i + 1;
    }
    table
}

/// `after` is `before` with the entry for `cell` replaced by `value`.
pub open spec fn updated<T>(
    before: Seq<Seq<T>>,
    after: Seq<Seq<T>>,
    cell: (usize, usize),
    value: T,
) -> bool {
    after == before.update(cell.0 as int, before[cell.0 as int].update(cell.1 as int, value))
}

/// Replaces one entry of a table.
pub fn set_entry<T>(table: &mut Vec<Vec<T>>, cell: (usize, usize), value: T)
    requires
        in_table(table_view(old(table)@), cell),
    ensures
        updated(table_view(old(table)@), table_view(final(table)@), cell, value),
{
    let ghost before = table_view(table@);
    table[cell.0][cell.1] = value;
    assert(table_view(table@) =~= before.update(
        cell.0 as int,
        before[cell.0 as int].update(cell.1 as int, value),
    ));
}

/// The index of the first frontier entry of least priority.
pub fn min_index(frontier: &Vec<Node>) -> (best: usize)
    requires
        frontier@.len() > 0,
    ensures
        is_first_min(frontier@, best as int),
        best == first_min(frontier@),
{
    let mut best: usize = 0;
    let mut i: usize = 1;
    while i < frontier.len()
        invariant
            best < i <= frontier@.len(),
            forall|j: int|
                0 <= j < i ==> frontier@[best as int].priority <= (#[trigger] frontier@[j]).priority,
            forall|j: int|
                0 <= j < best ==> frontier@[best as int].priority < (#[trigger] frontier@[j]).priority,
        decreases frontier@.len() - i,
    {
        if frontier[i].priority < frontier[best].priority {
            best = i;
        }
        i = i + 1;
    }
    proof {
        lemma_first_min_unique(frontier@, best as int);
    }
    best
}

/// The state that the tables and the frontier of a running search stand
/// for.
pub open spec fn state_of(
    g: Seq<Seq<u8>>,
    costs: Seq<Vec<u64>>,
    preds: Seq<Vec<Option<(usize, usize)>>>,
    frontier: Seq<Node>,
    start: (usize, usize),
    goal: (usize, usize),
    limit: nat,
) -> Search {
    Search {
        grid: g,
        costs: table_view(costs),
        preds: table_view(preds),
        frontier,
        start,
        goal,
        limit,
    }
}

/// Every cell of the route, if there is one, is passable.
pub open spec fn every_cell_passable(g: Seq<Seq<u8>>, result: Option<Seq<(usize, usize)>>) -> bool {
    match result {
        Some(route) => forall|i: int| 0 <= i < route.len() ==> passable(g, #[trigger] route[i]),
        None => true,
    }
}

/// A shortest route from `start` to `goal` over passable cells, by
/// best-first search guided by the straight-line distance to the goal.
///
/// The frontier is ordered by cost so far plus estimate; among entries of
/// equal priority the one inserted first leaves first.  A blocked start is
/// not rejected: the route leaves it if it can.  A blocked goal is reached
/// only where it is the start.
///
/// The grid must be rectangular with at least one row and at most
/// `MAX_DIM` rows and columns, and both cells must lie inside it;
/// `find_route` tests this first.
pub fn a_star(matrix: &Vec<Vec<u8>>, start: (usize, usize), goal: (usize, usize)) -> (result: Option<
    Vec<(usize, usize)>,
>)
    requires
        well_formed(grid_view(matrix)),
        rows(grid_view(matrix)) <= MAX_DIM,
        cols(grid_view(matrix)) <= MAX_DIM,
        in_bounds(grid_view(matrix), start),
        in_bounds(grid_view(matrix), goal),
    ensures
        is_answer(grid_view(matrix), start, goal, route_view(result)),
        start == goal ==> route_view(result) == Some(seq![start]),
        passable(grid_view(matrix), start) ==> every_cell_passable(
            grid_view(matrix),
            route_view(result),
        ),
        is_outcome(grid_view(matrix), start, goal, route_view(result)),
{
    let ghost g = grid_view(matrix);
    let height = matrix.len();
    let width = matrix[0].len();
    let mut frontier: Vec<Node> = Vec::new();
    let mut came_from: Vec<Vec<Option<(usize, usize)>>> = make_table(height, width, None);
    let mut g_score: Vec<Vec<u64>> = make_table(height, width, UNKNOWN);
    let ghost blank = table_view(g_score@);
    assert(g[start.0 as int].len() == width);

    frontier.push(Node { position: start, cost: 0, priority: heuristic(start, goal) });
    set_entry(&mut g_score, start, 0);
    let ghost limit = unknown_cells(table_view(g_score@));
    proof {
        let s = state_of(g, g_score@, came_from@, frontier@, start, goal, limit);
        assert forall|c: (usize, usize)| in_bounds(g, c) implies #[trigger] cost_at(blank, c)
            == UNKNOWN by {
            assert(blank[c.0 as int][c.1 as int] == UNKNOWN);
        }
        assert forall|c: (usize, usize)| in_bounds(g, c) implies (#[trigger] pred_at(
            table_view(came_from@),
            c,
        )).is_none() by {
            assert(table_view(came_from@)[c.0 as int][c.1 as int].is_none());
        }
        lemma_initial(s, blank);
        let first = initial(g, start, goal);
        assert(s.costs =~~= first.costs);
        assert(s.preds =~~= first.preds);
        assert(s.frontier =~= first.frontier);
        assert(s == first);
    }
    let ghost spent: nat = 0;

    while frontier.len() > 0
        invariant
            g == grid_view(matrix),
            height == matrix@.len(),
            search_inv(
                state_of(g, g_score@, came_from@, frontier@, start, goal, limit),
                None,
            ),
            forall|f: nat|
                #[trigger] run(
                    state_of(g, g_score@, came_from@, frontier@, start, goal, limit),
                    f,
                ) == run(initial(g, start, goal), spent + f),
        decreases total_cost(table_view(g_score@)), frontier@.len(),
    {
        let ghost s0 = state_of(g, g_score@, came_from@, frontier@, start, goal, limit);
        let idx = min_index(&frontier);
        let current = frontier[idx];
        let here = current.position;
        assert(entry_ok(s0, s0.frontier[idx as int]));
        if here.0 == goal.0 && here.1 == goal.1 {
            let ghost n = lemma_climb(s0, 0);
            proof {
                assert(here == goal);
                assert(cost_at(s0.costs, goal) < UNKNOWN);
                assert forall|other: Seq<(usize, usize)>| is_route(g, other, start, goal) implies n
                    + 1 <= other.len() by {
                    lemma_found(s0, idx as int, other);
                }
                assert forall|k: nat| k <= n implies in_table(
                    table_view(came_from@),
                    #[trigger] ancestor(table_view(came_from@), goal, k),
                ) by {
                    let c = ancestor(table_view(came_from@), goal, k);
                    assert(in_bounds(g, c));
                    assert(table_view(came_from@)[c.0 as int].len() == cols(g));
                }
                assert(chain_ends(table_view(came_from@), goal, n));
            }
            let ghost preds = table_view(came_from@);
            let path = reconstruct_path(came_from, goal);
            proof {
                assert(chain_ends(preds, goal, n));
                assert(path@[0] == ancestor(preds, goal, (n - 0) as nat));
                assert(path@[n as int] == ancestor(preds, goal, (n - n) as nat));
                assert forall|i: int| 1 <= i < path@.len() implies passable(g, #[trigger] path@[i]) by {
                    assert(path@[i] == ancestor(preds, goal, (n - i) as nat));
                }
                assert forall|i: int| 0 <= i < path@.len() - 1 implies adjacent(
                    #[trigger] path@[i],
                    path@[i + 1],
                ) by {
                    let j = (n - i - 1) as nat;
                    assert(path@[i] == ancestor(preds, goal, (n - i) as nat));
                    assert(path@[i + 1] == ancestor(preds, goal, (n - (i + 1)) as nat));
                    assert(adjacent(ancestor(preds, goal, j + 1), ancestor(preds, goal, j)));
                }
                assert(is_route(g, path@, start, goal));
                let m = choose|m: nat| chain_ends(preds, goal, m);
                assert(chain_ends(preds, goal, m));
                assert(path@ =~= route_of(s0));
                assert(at_goal(s0));
                assert(run(s0, 0) == Some(Some(path@)));
                assert(run(initial(g, start, goal), spent + 0) == Some(Some(path@)));
                if start == goal {
                    assert(is_route(g, seq![start], start, goal));
                    assert(path@ =~= seq![start]);
                }
            }
            return Some(path);
        }
        frontier.remove(idx);
        let near = neighbors(here, matrix);
        assert(table_view(g_score@)[here.0 as int].len() == cols(g));
        let base = g_score[here.0][here.1];
        let ghost s1 = Search { frontier: frontier@, ..s0 };
        proof {
            lemma_after_remove(s0, s1, idx as int);
            assert(cost_at(s1.costs, here) + unknown_cells(s1.costs) <= limit);
            lemma_open_neighbors(g, here);
        }
        let tentative = base + 1;
        let mut k: usize = 0;
        while k < near.len()
            invariant
                g == grid_view(matrix),
                k <= near@.len(),
                near@ == open_neighbors(g, here),
                in_bounds(g, here),
                cost_at(table_view(g_score@), here) == base,
                tentative == base + 1,
                tentative < UNKNOWN,
                forall|n: (usize, usize)|
                    open_neighbors(g, here).contains(n) <==> (passable(g, n) && adjacent(here, n)),
                search_inv(
                    state_of(g, g_score@, came_from@, frontier@, start, goal, limit),
                    Some(here),
                ),
                state_of(g, g_score@, came_from@, frontier@, start, goal, limit) == expand(s1, here, near@.take(k as int)),
                forall|j: int| 0 <= j < k ==> cost_at(table_view(g_score@), #[trigger] near@[j]) <= tentative,
                total_cost(table_view(g_score@)) < total_cost(s0.costs) || (total_cost(table_view(g_score@)) == total_cost(
                    s0.costs,
                ) && frontier@.len() == s0.frontier.len() - 1),
            decreases near@.len() - k,
        {
            let next = near[k];
            assert(near@.contains(next));
            assert(passable(g, next) && adjacent(here, next));
            assert(table_view(g_score@)[next.0 as int].len() == cols(g));
            assert(table_view(came_from@)[next.0 as int].len() == cols(g));
            let ghost prior = state_of(g, g_score@, came_from@, frontier@, start, goal, limit);
            proof {
                assert(near@.take(k + 1).drop_last() =~= near@.take(k as int));
                assert(near@.take(k + 1).last() == next);
                assert(expand(s1, here, near@.take(k + 1)) == relax(prior, here, next));
            }
            if tentative < g_score[next.0][next.1] {
                let ghost before = state_of(g, g_score@, came_from@, frontier@, start, goal, limit);
                set_entry(&mut came_from, next, Some(here));
                set_entry(&mut g_score, next, tentative);
                let estimate = heuristic(next, goal);
                let entry = Node {
                    position: next,
                    cost: tentative,
                    priority: (tentative as u128) * SCALE + estimate,
                };
                frontier.push(entry);
                proof {
                    let after = state_of(g, g_score@, came_from@, frontier@, start, goal, limit);
                    lemma_after_improve(before, after, here, entry);
                    assert(after == relax(before, here, next));
                    assert forall|j: int| 0 <= j < k + 1 implies cost_at(
                        table_view(g_score@),
                        #[trigger] near@[j],
                    ) <= tentative by {
                        if j < k {
                            assert(near@.contains(near@[j]));
                            assert(cost_at(before.costs, near@[j]) <= tentative);
                        }
                    }
                }
            }
            k = k + 1;
        }
        proof {
            let s2 = state_of(g, g_score@, came_from@, frontier@, start, goal, limit);
            lemma_after_expand(s2, here);
            assert(near@.take(near@.len() as int) =~= near@);
            assert(s2 == step(s0));
            assert(!at_goal(s0));
            assert forall|f: nat| #[trigger] run(s2, f) == run(initial(g, start, goal), spent + 1 + f) by {
                assert(run(s0, f + 1) == run(s2, f));
            }
            spent = spent + 1;
        }
    }
    proof {
        let s = state_of(g, g_score@, came_from@, frontier@, start, goal, limit);
        assert forall|other: Seq<(usize, usize)>| !is_route(g, other, start, goal) by {
            lemma_exhausted(s, other);
        }
        assert(is_route(g, seq![start], start, start));
        assert(run(s, 0) == Some(None::<Seq<(usize, usize)>>));
        assert(run(initial(g, start, goal), spent + 0) == Some(None::<Seq<(usize, usize)>>));
    }
    None
}

} // verus!
