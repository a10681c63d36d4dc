//! What follows for every caller from the answer of a search.

use vstd::prelude::*;
use crate::grid::{adjacent, in_bounds, is_answer, is_route, passable};

verus! {

/// `d` is the number of steps of a shortest route from `start` to `goal`.
pub open spec fn is_distance(
    g: Seq<Seq<u8>>,
    start: (usize, usize),
    goal: (usize, usize),
    d: int,
) -> bool {
    &&& exists|r: Seq<(usize, usize)>| #[trigger] is_route(g, r, start, goal) && r.len() - 1 == d
    &&& forall|r: Seq<(usize, usize)>| #[trigger] is_route(g, r, start, goal) ==> d <= r.len() - 1
}

/// Between a cell and itself the answer is the route of that one cell,
/// whether the cell is blocked or not.
pub proof fn lemma_same_cell(g: Seq<Seq<u8>>, cell: (usize, usize), result: Option<Seq<(usize, usize)>>)
    requires
        in_bounds(g, cell),
        is_answer(g, cell, cell, result),
    ensures
        result == Some(seq![cell]),
{
    let single = seq![cell];
    assert(is_route(g, single, cell, cell));
    assert(result.is_some());
    assert(result.unwrap().len() <= single.len());
    assert(result.unwrap() =~= single);
}

/// Where no route leads from start to goal, the answer is none.
pub proof fn lemma_no_route_means_none(
    g: Seq<Seq<u8>>,
    start: (usize, usize),
    goal: (usize, usize),
    result: Option<Seq<(usize, usize)>>,
)
    requires
        is_answer(g, start, goal, result),
        forall|r: Seq<(usize, usize)>| !is_route(g, r, start, goal),
    ensures
        result.is_none(),
{
}

/// In a route that is the answer, every two consecutive cells are one
/// orthogonal step apart and every cell after the first is passable; the
/// first is passable where the start is.
pub proof fn lemma_route_steps(
    g: Seq<Seq<u8>>,
    start: (usize, usize),
    goal: (usize, usize),
    route: Seq<(usize, usize)>,
    i: int,
)
    requires
        is_answer(g, start, goal, Some(route)),
        0 <= i < route.len(),
    ensures
        i + 1 < route.len() ==> adjacent(route[i], route[i + 1]),
        i > 0 || passable(g, start) ==> passable(g, route[i]),
{
}

/// The number of steps of a route that is the answer is the distance from
/// start to goal.
pub proof fn lemma_route_length_is_distance(
    g: Seq<Seq<u8>>,
    start: (usize, usize),
    goal: (usize, usize),
    route: Seq<(usize, usize)>,
    d: int,
)
    requires
        is_answer(g, start, goal, Some(route)),
        is_distance(g, start, goal, d),
    ensures
        route.len() - 1 == d,
{
    let r = choose|r: Seq<(usize, usize)>| #[trigger] is_route(g, r, start, goal) && r.len() - 1 == d;
    assert(route.len() <= r.len());
}

} // verus!
