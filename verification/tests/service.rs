use astar_grid::input::InputError;
use astar_grid::service::{find_path, plan_on, GRID_COLS, GRID_ROWS};

#[test]
fn plan_on_returns_the_grid_with_the_route() {
    let grid = vec![vec![0, 0, 0], vec![1, 1, 0], vec![0, 0, 0]];
    let plan = plan_on(grid.clone(), (0, 0), (2, 0)).unwrap();
    assert_eq!(plan.matrix, grid);
    assert_eq!(
        plan.path,
        Some(vec![(0, 0), (0, 1), (0, 2), (1, 2), (2, 2), (2, 1), (2, 0)])
    );
}

#[test]
fn plan_on_returns_the_grid_without_a_route() {
    let grid = vec![vec![0, 1], vec![1, 0]];
    let plan = plan_on(grid.clone(), (0, 0), (1, 1)).unwrap();
    assert_eq!(plan.matrix, grid);
    assert_eq!(plan.path, None);
}

#[test]
fn plan_on_refuses_a_faulty_input() {
    let grid = vec![vec![0, 1], vec![1, 0]];
    assert_eq!(plan_on(grid.clone(), (0, 2), (1, 1)).unwrap_err(), InputError::StartOutside);
    assert_eq!(plan_on(grid, (0, 0), (2, 1)).unwrap_err(), InputError::GoalOutside);
    assert_eq!(plan_on(Vec::new(), (0, 0), (0, 0)).unwrap_err(), InputError::EmptyGrid);
    assert_eq!(
        plan_on(vec![vec![0], vec![0, 0]], (0, 0), (0, 0)).unwrap_err(),
        InputError::RaggedRows
    );
}

#[test]
fn find_path_answers_on_a_grid_of_a_hundred_by_a_hundred() {
    assert_eq!((GRID_ROWS, GRID_COLS), (100, 100));
    for _ in 0..5 {
        let plan = find_path((0, 0), (99, 99)).unwrap();
        assert_eq!(plan.matrix.len(), 100);
        assert!(plan.matrix.iter().all(|row| row.len() == 100));
        assert_eq!(plan.matrix[0][0], 0);
        assert_eq!(plan.matrix[99][99], 0);
        if let Some(path) = plan.path {
            assert_eq!(path[0], (0, 0));
            assert_eq!(path[path.len() - 1], (99, 99));
            for cell in &path {
                assert_eq!(plan.matrix[cell.0][cell.1], 0);
            }
        }
    }
}

#[test]
fn find_path_between_a_cell_and_itself() {
    let plan = find_path((40, 60), (40, 60)).unwrap();
    assert_eq!(plan.path, Some(vec![(40, 60)]));
}

#[test]
fn find_path_refuses_cells_outside_the_grid() {
    assert_eq!(find_path((100, 0), (0, 0)).unwrap_err(), InputError::StartOutside);
    assert_eq!(find_path((0, 100), (0, 0)).unwrap_err(), InputError::StartOutside);
    assert_eq!(find_path((0, 0), (100, 99)).unwrap_err(), InputError::GoalOutside);
    assert_eq!(find_path((0, 0), (99, 100)).unwrap_err(), InputError::GoalOutside);
    assert_eq!(find_path((100, 100), (100, 100)).unwrap_err(), InputError::StartOutside);
}
