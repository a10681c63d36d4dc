//! The validating entry point: a search that first tests what the search
//! proper takes for granted of its input.

use vstd::prelude::*;
use crate::grid::{cols, grid_view, in_bounds, is_answer, passable, rows, well_formed, MAX_DIM};
use crate::outcome::{is_outcome, route_view};
use crate::pathfinding::{a_star, every_cell_passable};

verus! {

/// Why an input is not searched.
#[derive(Clone, Copy, Debug, PartialEq, Eq)]
pub enum InputError {
    /// The grid has no row.
    EmptyGrid,
    /// The rows of the grid differ in length.
    RaggedRows,
    /// The grid has more than `MAX_DIM` rows or columns.
    TooLarge,
    /// The start lies outside the grid.
    StartOutside,
    /// The goal lies outside the grid.
    GoalOutside,
}

/// The first fault of an input, if it has one.
pub open spec fn input_fault(g: Seq<Seq<u8>>, start: (usize, usize), goal: (usize, usize)) -> Option<
    InputError,
> {
    if g.len() == 0 {
        Some(InputError::EmptyGrid)
    } else if !well_formed(g) {
        Some(InputError::RaggedRows)
    } else if rows(g) > MAX_DIM || cols(g) > MAX_DIM {
        Some(InputError::TooLarge)
    } else if !in_bounds(g, start) {
        Some(InputError::StartOutside)
    } else if !in_bounds(g, goal) {
        Some(InputError::GoalOutside)
    } else {
        None
    }
}

/// Tests an input for its first fault.
pub fn validate(matrix: &Vec<Vec<u8>>, start: (usize, usize), goal: (usize, usize)) -> (checked:
    Result<(), InputError>)
    ensures
        checked == (match input_fault(grid_view(matrix), start, goal) {
            Some(fault) => Err::<(), InputError>(fault),
            None => Ok(()),
        }),
{
    let ghost g = grid_view(matrix);
    let height = matrix.len();
    if height == 0 {
        return Err(InputError::EmptyGrid);
    }
    let width = matrix[0].len();
    let mut r: usize = 1;
    while r < height
        invariant
            g == grid_view(matrix),
            height == matrix@.len(),
            width == matrix@[0]@.len(),
            1 <= r <= height,
            forall|i: int| 0 <= i < r ==> (#[trigger] g[i]).len() == width,
        decreases height - r,
    {
        if matrix[r].len() != width {
            assert(g[r as int].len() != g[0].len());
            return Err(InputError::RaggedRows);
        }
        r = r + 1;
    }
    if height > MAX_DIM || width > MAX_DIM {
        return Err(InputError::TooLarge);
    }
    if start.0 >= height || start.1 >= width {
        return Err(InputError::StartOutside);
    }
    if goal.0 >= height || goal.1 >= width {
        return Err(InputError::GoalOutside);
    }
    Ok(())
}

/// A shortest route from `start` to `goal`, or none where there is no
/// route, for an input without fault; the first fault of any other.
pub fn find_route(matrix: &Vec<Vec<u8>>, start: (usize, usize), goal: (usize, usize)) -> (found:
    Result<Option<Vec<(usize, usize)>>, InputError>)
    ensures
        match found {
            Ok(result) => {
                &&& input_fault(grid_view(matrix), start, goal).is_none()
                &&& is_answer(grid_view(matrix), start, goal, route_view(result))
                &&& is_outcome(grid_view(matrix), start, goal, route_view(result))
                &&& start == goal ==> route_view(result) == Some(seq![start])
                &&& passable(grid_view(matrix), start) ==> every_cell_passable(
                    grid_view(matrix),
                    route_view(result),
                )
            },
            Err(fault) => input_fault(grid_view(matrix), start, goal) == Some(fault),
        },
{
    match validate(matrix, start, goal) {
        Ok(()) => Ok(a_star(matrix, start, goal)),
        Err(fault) => Err(fault),
    }
}

} // verus!
