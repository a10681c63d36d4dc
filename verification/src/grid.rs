//! The mathematical model of an occupancy grid and of a route through it.

use vstd::prelude::*;

verus! {

/// Largest number of rows or columns of a grid that the search accepts.
/// Squared distances between two cells of such a grid fit in 64 bits.
pub const MAX_DIM: usize = 0x7fff_ffff;

/// The occupancy flags of `matrix`, row by row.
pub open spec fn grid_view(matrix: &Vec<Vec<u8>>) -> Seq<Seq<u8>> {
    Seq::new(matrix@.len(), |i: int| matrix@[i]@)
}

/// A grid has at least one row and all its rows have the same length.
pub open spec fn well_formed(g: Seq<Seq<u8>>) -> bool {
    &&& g.len() > 0
    &&& forall|i: int| 0 <= i < g.len() ==> (#[trigger] g[i]).len() == g[0].len()
}

/// The number of rows of a grid.
pub open spec fn rows(g: Seq<Seq<u8>>) -> nat {
    g.len()
}

/// The number of columns of a grid.
pub open spec fn cols(g: Seq<Seq<u8>>) -> nat {
    g[0].len()
}

/// Row `r`, column `c` lies inside the grid and is not blocked.
pub open spec fn open_at(g: Seq<Seq<u8>>, r: int, c: int) -> bool {
    &&& 0 <= r < rows(g)
    &&& 0 <= c < cols(g)
    &&& g[r][c] == 0
}

/// `cell` lies inside the grid.
pub open spec fn in_bounds(g: Seq<Seq<u8>>, cell: (usize, usize)) -> bool {
    cell.0 < rows(g) && cell.1 < cols(g)
}

/// `cell` lies inside the grid and is not blocked.
pub open spec fn passable(g: Seq<Seq<u8>>, cell: (usize, usize)) -> bool {
    open_at(g, cell.0 as int, cell.1 as int)
}

/// The number of orthogonal steps between two cells when nothing is blocked.
pub open spec fn manhattan(a: (usize, usize), b: (usize, usize)) -> int {
    (if a.0 >= b.0 { a.0 - b.0 } else { b.0 - a.0 })
        + (if a.1 >= b.1 { a.1 - b.1 } else { b.1 - a.1 })
}

/// Two cells are one orthogonal step apart.
pub open spec fn adjacent(a: (usize, usize), b: (usize, usize)) -> bool {
    manhattan(a, b) == 1
}

/// `route` leads from `start` to `goal` inside the grid: it is not empty,
/// consecutive cells are one orthogonal step apart, and every cell that is
/// stepped onto (every cell but the first) is passable.
pub open spec fn is_route(
    g: Seq<Seq<u8>>,
    route: Seq<(usize, usize)>,
    start: (usize, usize),
    goal: (usize, usize),
) -> bool {
    &&& route.len() > 0
    &&& route[0] == start
    &&& route[route.len() - 1] == goal
    &&& in_bounds(g, start)
    &&& forall|i: int| 1 <= i < route.len() ==> passable(g, #[trigger] route[i])
    &&& forall|i: int| 0 <= i < route.len() - 1 ==> adjacent(#[trigger] route[i], route[i + 1])
}

/// `result` answers the question for a shortest route from `start` to
/// `goal`: it is a route that no other route undercuts, or it is none and
/// there is no route at all.
pub open spec fn is_answer(
    g: Seq<Seq<u8>>,
    start: (usize, usize),
    goal: (usize, usize),
    result: Option<Seq<(usize, usize)>>,
) -> bool {
    match result {
        Some(route) => {
            &&& is_route(g, route, start, goal)
            &&& forall|other: Seq<(usize, usize)>|
                is_route(g, other, start, goal) ==> route.len() <= other.len()
        },
        None => forall|other: Seq<(usize, usize)>| !is_route(g, other, start, goal),
    }
}

/// The cell reached from `p` in direction `k`: right, down, left, up.
pub open spec fn shifted(p: (usize, usize), k: int) -> (int, int) {
    if k == 0 {
        (p.0 as int, p.1 + 1)
    } else if k == 1 {
        (p.0 + 1, p.1 as int)
    } else if k == 2 {
        (p.0 as int, p.1 - 1)
    } else {
        (p.0 - 1, p.1 as int)
    }
}

/// The neighbour of `p` in direction `k` if it is inside the grid and
/// passable, as a sequence of one cell or none.
pub open spec fn open_shifted(g: Seq<Seq<u8>>, p: (usize, usize), k: int) -> Seq<(usize, usize)> {
    let q = shifted(p, k);
    if open_at(g, q.0, q.1) {
        seq![(q.0 as usize, q.1 as usize)]
    } else {
        Seq::empty()
    }
}

/// The passable neighbours of `p` in the order right, down, left, up.
pub open spec fn open_neighbors(g: Seq<Seq<u8>>, p: (usize, usize)) -> Seq<(usize, usize)> {
    open_shifted(g, p, 0) + open_shifted(g, p, 1) + open_shifted(g, p, 2) + open_shifted(g, p, 3)
}

/// The passable neighbours of a cell are exactly the passable cells one
/// orthogonal step away from it.
pub proof fn lemma_open_neighbors(g: Seq<Seq<u8>>, p: (usize, usize))
    requires
        well_formed(g),
        rows(g) <= MAX_DIM,
        cols(g) <= MAX_DIM,
    ensures
        forall|n: (usize, usize)|
            open_neighbors(g, p).contains(n) <==> (passable(g, n) && adjacent(p, n)),
{
    let s = open_neighbors(g, p);
    let s0 = open_shifted(g, p, 0);
    let s1 = open_shifted(g, p, 1);
    let s2 = open_shifted(g, p, 2);
    let s3 = open_shifted(g, p, 3);
    assert forall|n: (usize, usize)| s.contains(n) <==> (passable(g, n) && adjacent(p, n)) by {
        if s.contains(n) {
            let i = choose|i: int| 0 <= i < s.len() && s[i] == n;
            assert(s0.contains(n) || s1.contains(n) || s2.contains(n) || s3.contains(n)) by {
                if i < s0.len() {
                    assert(s0[i] == n);
                } else if i < s0.len() + s1.len() {
                    assert(s1[i - s0.len()] == n);
                } else if i < s0.len() + s1.len() + s2.len() {
                    assert(s2[i - s0.len() - s1.len()] == n);
                } else {
                    assert(s3[i - s0.len() - s1.len() - s2.len()] == n);
                }
            }
        }
        if passable(g, n) && adjacent(p, n) {
            let k: int = if n.0 == p.0 && n.1 == p.1 + 1 {
                0
            } else if n.0 == p.0 + 1 {
                1
            } else if n.0 == p.0 {
                2
            } else {
                3
            };
            let q = shifted(p, k);
            assert(q.0 == n.0 && q.1 == n.1);
            assert(open_shifted(g, p, k) =~= seq![n]);
            assert(open_shifted(g, p, k)[0] == n);
            if k == 0 {
                assert(s[0] == n);
            } else if k == 1 {
                assert(s[s0.len() as int] == n);
            } else if k == 2 {
                assert(s[(s0.len() + s1.len()) as int] == n);
            } else {
                assert(s[(s0.len() + s1.len() + s2.len()) as int] == n);
            }
        }
    }
}

} // verus!
