//! One request: a fresh random grid and the search on it.

use vstd::prelude::*;
use crate::generator::generate_large_matrix;
use crate::grid::{cols, grid_view, is_answer, passable, rows, well_formed};
use crate::input::{find_route, input_fault, InputError};
use crate::outcome::{is_outcome, route_view};
use crate::pathfinding::every_cell_passable;

verus! {

/// The number of rows of the grid that a request is answered on.
pub const GRID_ROWS: usize = 100;

/// The number of columns of the grid that a request is answered on.
pub const GRID_COLS: usize = 100;

/// The answer to a request: the grid that was searched and the route that
/// was found on it, if there is one.
#[derive(Clone, Debug)]
pub struct Plan {
    pub matrix: Vec<Vec<u8>>,
    pub path: Option<Vec<(usize, usize)>>,
}

/// The grid of `plan` has no fault for the two cells, and its path is what
/// the search from `start` to `goal` on that grid returns.
pub open spec fn is_plan(plan: Plan, start: (usize, usize), goal: (usize, usize)) -> bool {
    let g = grid_view(&plan.matrix);
    &&& input_fault(g, start, goal).is_none()
    &&& is_answer(g, start, goal, route_view(plan.path))
    &&& is_outcome(g, start, goal, route_view(plan.path))
    &&& start == goal ==> route_view(plan.path) == Some(seq![start])
    &&& passable(g, start) ==> every_cell_passable(g, route_view(plan.path))
}

/// The first fault of a request: a cell outside the grid of `GRID_ROWS` by
/// `GRID_COLS` cells.
pub open spec fn request_fault(start: (usize, usize), goal: (usize, usize)) -> Option<InputError> {
    if start.0 >= GRID_ROWS || start.1 >= GRID_COLS {
        Some(InputError::StartOutside)
    } else if goal.0 >= GRID_ROWS || goal.1 >= GRID_COLS {
        Some(InputError::GoalOutside)
    } else {
        None
    }
}

/// The search on a given grid, together with the grid; the first fault of
/// the input where it has one.
pub fn plan_on(matrix: Vec<Vec<u8>>, start: (usize, usize), goal: (usize, usize)) -> (answer: Result<
    Plan,
    InputError,
>)
    ensures
        match answer {
            Ok(plan) => plan.matrix == matrix && is_plan(plan, start, goal),
            Err(fault) => input_fault(grid_view(&matrix), start, goal) == Some(fault),
        },
{
    match find_route(&matrix, start, goal) {
        Ok(path) => Ok(Plan { matrix, path }),
        Err(fault) => Err(fault),
    }
}

/// The answer to a request for a route from `start` to `goal`: a fresh
/// random grid with open endpoints and the search on it.  A request for a
/// cell outside the grid is refused, whatever was drawn.
pub fn find_path(start: (usize, usize), goal: (usize, usize)) -> (answer: Result<Plan, InputError>)
    ensures
        match answer {
            Ok(plan) => {
                &&& request_fault(start, goal).is_none()
                &&& is_plan(plan, start, goal)
                &&& well_formed(grid_view(&plan.matrix))
                &&& rows(grid_view(&plan.matrix)) == GRID_ROWS
                &&& cols(grid_view(&plan.matrix)) == GRID_COLS
                &&& passable(grid_view(&plan.matrix), (0, 0))
                &&& passable(
                    grid_view(&plan.matrix),
                    ((GRID_ROWS - 1) as usize, (GRID_COLS - 1) as usize),
                )
            },
            Err(fault) => request_fault(start, goal) == Some(fault),
        },
{
    let matrix = generate_large_matrix(GRID_ROWS, GRID_COLS);
    plan_on(matrix, start, goal)
}

} // verus!
