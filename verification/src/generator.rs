//! Random occupancy grids whose two corner endpoints are always passable.

use vstd::prelude::*;
use rand::rngs::ThreadRng;
use rand::Rng;
use crate::grid::{cols, grid_view, passable, rows, well_formed};

verus! {

/// Out of `WALL_OUT_OF` cells, `WALL_SHARE` are blocked on average.
pub const WALL_SHARE: u32 = 3;

/// See `WALL_SHARE`.
pub const WALL_OUT_OF: u32 = 10;

/// The thread-local random number generator of the `rand` crate.
#[verifier::external_type_specification]
#[verifier::external_body]
pub struct ExThreadRng(ThreadRng);

/// `rand::thread_rng`: a handle to the generator of the calling thread.
/// Nothing is claimed of it.
pub assume_specification[ rand::thread_rng ]() -> (rng: ThreadRng);

/// `rand::Rng::gen_ratio` on the thread's generator: `true` with
/// probability `numerator / denominator`.  Only what its documentation
/// guarantees of every draw is claimed: a ratio of one always hits, a ratio
/// of zero never does.  It panics on a zero denominator or a ratio above
/// one, which the precondition leaves out.
#[verifier::external_body]
fn draw_ratio(rng: &mut ThreadRng, numerator: u32, denominator: u32) -> (hit: bool)
    requires
        denominator > 0,
        numerator <= denominator,
    ensures
        numerator == denominator ==> hit,
        numerator == 0 ==> !hit,
{
    rng.gen_ratio(numerator, denominator)
}

/// The draws form a table with at least one row and one column.
pub open spec fn draws_shaped(draws: Seq<Vec<bool>>) -> bool {
    &&& draws.len() > 0
    &&& draws[0]@.len() > 0
    &&& forall|i: int| 0 <= i < draws.len() ==> (#[trigger] draws[i])@.len() == draws[0]@.len()
}

/// The two cells that are passable whatever was drawn: the top-left and
/// the bottom-right corner.
pub open spec fn is_endpoint(height: int, width: int, r: int, c: int) -> bool {
    (r == 0 && c == 0) || (r == height - 1 && c == width - 1)
}

/// The occupancy flag of a cell, given what was drawn for it.
pub open spec fn cell_flag(height: int, width: int, r: int, c: int, blocked: bool) -> u8 {
    if !is_endpoint(height, width, r, c) && blocked {
        1
    } else {
        0
    }
}

/// The grid that a table of draws stands for: a cell is blocked where its
/// draw says so, but for the two endpoints, which are passable.
pub fn grid_from_draws(draws: &Vec<Vec<bool>>) -> (matrix: Vec<Vec<u8>>)
    requires
        draws_shaped(draws@),
    ensures
        matrix@.len() == draws@.len(),
        forall|r: int| 0 <= r < matrix@.len() ==> (#[trigger] matrix@[r])@.len() == draws@[0]@.len(),
        forall|r: int, c: int|
            0 <= r < draws@.len() && 0 <= c < draws@[0]@.len() ==> #[trigger] matrix@[r]@[c]
                == cell_flag(draws@.len() as int, draws@[0]@.len() as int, r, c, draws@[r]@[c]),
{
    let height = draws.len();
    let width = draws[0].len();
    let mut matrix: Vec<Vec<u8>> = Vec::new();
    let mut r: usize = 0;
    while r < height
        invariant
            draws_shaped(draws@),
            height == draws@.len(),
            width == draws@[0]@.len(),
            r <= height,
            matrix@.len() == r,
            forall|a: int| 0 <= a < r ==> (#[trigger] matrix@[a])@.len() == width,
            forall|a: int, c: int|
                0 <= a < r && 0 <= c < width ==> #[trigger] matrix@[a]@[c] == cell_flag(
                    height as int,
                    width as int,
                    a,
                    c,
                    draws@[a]@[c],
                ),
        decreases height - r,
    {
        let mut row: Vec<u8> = Vec::new();
        let mut c: usize = 0;
        assert(draws@[r as int]@.len() == width);
        while c < width
            invariant
                r < height,
                height == draws@.len(),
                draws@[r as int]@.len() == width,
                c <= width,
                row@.len() == c,
                forall|b: int|
                    0 <= b < c ==> #[trigger] row@[b] == cell_flag(
                        height as int,
                        width as int,
                        r as int,
                        b,
                        draws@[r as int]@[b],
                    ),
            decreases width - c,
        {
            let corner = (r == 0 && c == 0) || (r == height - 1 && c == width - 1);
            let flag: u8 = if !corner && draws[r][c] { 1 } else { 0 };
            row.push(flag);
            c = c + 1;
        }
        matrix.push(row);
        r = r + 1;
    }
    matrix
}

/// A random grid of `rows` by `cols` cells: each cell is blocked with a
/// probability of three in ten, independently of the others, and the
/// top-left and bottom-right cells are passable whatever was drawn.
pub fn generate_large_matrix(rows: usize, cols: usize) -> (matrix: Vec<Vec<u8>>)
    requires
        rows > 0,
        cols > 0,
    ensures
        well_formed(grid_view(&matrix)),
        self::rows(grid_view(&matrix)) == rows,
        self::cols(grid_view(&matrix)) == cols,
        forall|r: int, c: int|
            0 <= r < rows && 0 <= c < cols ==> #[trigger] grid_view(&matrix)[r][c] <= 1,
        passable(grid_view(&matrix), (0, 0)),
        passable(grid_view(&matrix), ((rows - 1) as usize, (cols - 1) as usize)),
{
    let mut rng = rand::thread_rng();
    let mut draws: Vec<Vec<bool>> = Vec::new();
    let mut r: usize = 0;
    while r < rows
        invariant
            r <= rows,
            draws@.len() == r,
            forall|a: int| 0 <= a < r ==> (#[trigger] draws@[a])@.len() == cols,
        decreases rows - r,
    {
        let mut line: Vec<bool> = Vec::new();
        let mut c: usize = 0;
        while c < cols
            invariant
                c <= cols,
                line@.len() == c,
            decreases cols - c,
        {
            let blocked = draw_ratio(&mut rng, WALL_SHARE, WALL_OUT_OF);
            line.push(blocked);
            c = c + 1;
        }
        draws.push(line);
        r = r + 1;
    }
    let matrix = grid_from_draws(&draws);
    proof {
        let g = grid_view(&matrix);
        assert(g[0].len() == cols);
        assert forall|i: int| 0 <= i < g.len() implies (#[trigger] g[i]).len() == g[0].len() by {
            assert(matrix@[i]@.len() == cols);
        }
        assert forall|a: int, c: int| 0 <= a < rows && 0 <= c < cols implies #[trigger] g[a][c]
            <= 1 by {
            assert(matrix@[a]@[c] == cell_flag(rows as int, cols as int, a, c, draws@[a]@[c]));
        }
        assert(matrix@[0]@[0] == cell_flag(rows as int, cols as int, 0, 0, draws@[0]@[0]));
        assert(matrix@[rows - 1]@[cols - 1] == cell_flag(
            rows as int,
            cols as int,
            rows - 1,
            cols - 1,
            draws@[rows - 1]@[cols - 1],
        ));
    }
    matrix
}

} // verus!
