use astar_grid::grid::MAX_DIM;
use astar_grid::input::{find_route, validate, InputError};

#[test]
fn empty_grid_is_refused() {
    let grid: Vec<Vec<u8>> = Vec::new();
    assert_eq!(validate(&grid, (0, 0), (0, 0)), Err(InputError::EmptyGrid));
    assert_eq!(find_route(&grid, (0, 0), (0, 0)), Err(InputError::EmptyGrid));
}

#[test]
fn ragged_rows_are_refused() {
    let grid = vec![vec![0, 0, 0], vec![0, 0], vec![0, 0, 0]];
    assert_eq!(validate(&grid, (0, 0), (2, 2)), Err(InputError::RaggedRows));
    assert_eq!(find_route(&grid, (0, 0), (2, 2)), Err(InputError::RaggedRows));
    let longer_last = vec![vec![0, 0], vec![0, 0, 0]];
    assert_eq!(validate(&longer_last, (0, 0), (1, 1)), Err(InputError::RaggedRows));
}

#[test]
fn ragged_rows_come_before_cells_outside() {
    let grid = vec![vec![0, 0], vec![0]];
    assert_eq!(validate(&grid, (5, 5), (6, 6)), Err(InputError::RaggedRows));
}

#[test]
fn start_outside_is_refused() {
    let grid = vec![vec![0u8; 3]; 2];
    assert_eq!(validate(&grid, (2, 0), (0, 0)), Err(InputError::StartOutside));
    assert_eq!(validate(&grid, (0, 3), (0, 0)), Err(InputError::StartOutside));
    assert_eq!(validate(&grid, (usize::MAX, 0), (9, 9)), Err(InputError::StartOutside));
    assert_eq!(find_route(&grid, (2, 0), (0, 0)), Err(InputError::StartOutside));
}

#[test]
fn goal_outside_is_refused() {
    let grid = vec![vec![0u8; 3]; 2];
    assert_eq!(validate(&grid, (0, 0), (2, 0)), Err(InputError::GoalOutside));
    assert_eq!(validate(&grid, (1, 2), (1, 3)), Err(InputError::GoalOutside));
    assert_eq!(find_route(&grid, (0, 0), (0, usize::MAX)), Err(InputError::GoalOutside));
}

#[test]
fn rows_without_cells_leave_every_start_outside() {
    let grid: Vec<Vec<u8>> = vec![Vec::new(), Vec::new()];
    assert_eq!(validate(&grid, (0, 0), (0, 0)), Err(InputError::StartOutside));
}

#[test]
fn sound_input_is_accepted() {
    let grid = vec![vec![0u8; 3]; 2];
    assert_eq!(validate(&grid, (0, 0), (1, 2)), Ok(()));
    assert_eq!(validate(&grid, (1, 2), (1, 2)), Ok(()));
    assert_eq!(MAX_DIM, 2147483647);
}

#[test]
fn find_route_searches_sound_input() {
    let grid = vec![vec![0, 0, 0], vec![1, 1, 0], vec![0, 0, 0]];
    assert_eq!(
        find_route(&grid, (0, 0), (2, 0)),
        Ok(Some(vec![(0, 0), (0, 1), (0, 2), (1, 2), (2, 2), (2, 1), (2, 0)]))
    );
    let walled = vec![vec![0, 1], vec![1, 0]];
    assert_eq!(find_route(&walled, (0, 0), (1, 1)), Ok(None));
}

#[test]
fn among_equal_routes_the_first_found_is_kept() {
    let grid = vec![vec![0u8; 2]; 2];
    assert_eq!(
        find_route(&grid, (0, 0), (1, 1)),
        Ok(Some(vec![(0, 0), (0, 1), (1, 1)]))
    );
}

#[test]
fn oversized_grid_is_refused() {
    let grid = vec![vec![0u8; MAX_DIM + 1]];
    assert_eq!(validate(&grid, (0, 0), (0, 1)), Err(InputError::TooLarge));
    assert_eq!(find_route(&grid, (0, 0), (0, 1)), Err(InputError::TooLarge));
}
