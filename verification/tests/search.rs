use astar_grid::pathfinding::{a_star, neighbors, reconstruct_path};
use std::collections::VecDeque;

fn one_step(a: (usize, usize), b: (usize, usize)) -> bool {
    a.0.abs_diff(b.0) + a.1.abs_diff(b.1) == 1
}

fn assert_route(grid: &Vec<Vec<u8>>, route: &Vec<(usize, usize)>, start: (usize, usize), goal: (usize, usize)) {
    assert!(!route.is_empty());
    assert_eq!(route[0], start);
    assert_eq!(route[route.len() - 1], goal);
    for i in 1..route.len() {
        assert_eq!(grid[route[i].0][route[i].1], 0);
        assert!(one_step(route[i - 1], route[i]));
    }
}

fn breadth_first(grid: &Vec<Vec<u8>>, start: (usize, usize), goal: (usize, usize)) -> Option<usize> {
    let mut seen = vec![vec![false; grid[0].len()]; grid.len()];
    let mut queue = VecDeque::new();
    seen[start.0][start.1] = true;
    queue.push_back((start, 0usize));
    while let Some((cell, dist)) = queue.pop_front() {
        if cell == goal {
            return Some(dist);
        }
        for next in neighbors(cell, grid) {
            if !seen[next.0][next.1] {
                seen[next.0][next.1] = true;
                queue.push_back((next, dist + 1));
            }
        }
    }
    None
}

fn maze(seed: u64, rows: usize, cols: usize) -> Vec<Vec<u8>> {
    let mut state = seed;
    let mut grid = vec![vec![0u8; cols]; rows];
    for r in 0..rows {
        for c in 0..cols {
            state = state.wrapping_mul(6364136223846793005).wrapping_add(1442695040888963407);
            if (state >> 33) % 10 < 3 {
                grid[r][c] = 1;
            }
        }
    }
    grid[0][0] = 0;
    grid[rows - 1][cols - 1] = 0;
    grid
}

#[test]
fn detour_through_the_gap() {
    let grid = vec![vec![0, 0, 0], vec![1, 1, 0], vec![0, 0, 0]];
    let route = a_star(&grid, (0, 0), (2, 0));
    assert_eq!(
        route,
        Some(vec![(0, 0), (0, 1), (0, 2), (1, 2), (2, 2), (2, 1), (2, 0)])
    );
    assert_eq!(route.unwrap().len() - 1, 6);
}

#[test]
fn walled_off_goal_has_no_route() {
    let grid = vec![vec![0, 1], vec![1, 0]];
    assert_eq!(a_star(&grid, (0, 0), (1, 1)), None);
}

#[test]
fn start_equal_to_goal_is_a_single_cell() {
    let grid = vec![vec![0, 1, 0], vec![0, 0, 0]];
    assert_eq!(a_star(&grid, (1, 2), (1, 2)), Some(vec![(1, 2)]));
    assert_eq!(a_star(&grid, (0, 0), (0, 0)), Some(vec![(0, 0)]));
}

#[test]
fn blocked_start_equal_to_goal_is_still_found() {
    let grid = vec![vec![0, 1, 0], vec![0, 0, 0]];
    assert_eq!(a_star(&grid, (0, 1), (0, 1)), Some(vec![(0, 1)]));
}

#[test]
fn blocked_goal_is_never_reached() {
    let grid = vec![vec![0, 0, 0], vec![0, 1, 0], vec![0, 0, 0]];
    assert_eq!(a_star(&grid, (0, 0), (1, 1)), None);
}

#[test]
fn blocked_start_is_left_when_possible() {
    let grid = vec![vec![1, 0], vec![0, 0]];
    let route = a_star(&grid, (0, 0), (1, 1)).unwrap();
    assert_eq!(route.len(), 3);
    assert_route(&grid, &route, (0, 0), (1, 1));
}

#[test]
fn blocked_start_enclosed_has_no_route() {
    let grid = vec![vec![1, 1, 0], vec![1, 0, 0]];
    assert_eq!(a_star(&grid, (0, 0), (1, 2)), None);
}

#[test]
fn single_row_grid() {
    let grid = vec![vec![0, 0, 0, 0]];
    assert_eq!(
        a_star(&grid, (0, 3), (0, 0)),
        Some(vec![(0, 3), (0, 2), (0, 1), (0, 0)])
    );
}

#[test]
fn single_cell_grid() {
    let grid = vec![vec![0]];
    assert_eq!(a_star(&grid, (0, 0), (0, 0)), Some(vec![(0, 0)]));
}

#[test]
fn open_grid_route_has_manhattan_length() {
    let grid = vec![vec![0u8; 7]; 5];
    let route = a_star(&grid, (4, 1), (0, 6)).unwrap();
    assert_eq!(route.len() - 1, 9);
    assert_route(&grid, &route, (4, 1), (0, 6));
}

#[test]
fn routes_are_orthogonal_and_passable() {
    for seed in 0..20u64 {
        let grid = maze(seed, 12, 15);
        if let Some(route) = a_star(&grid, (0, 0), (11, 14)) {
            assert_route(&grid, &route, (0, 0), (11, 14));
            for cell in &route {
                assert_eq!(grid[cell.0][cell.1], 0);
            }
        }
    }
}

#[test]
fn route_length_matches_breadth_first_search() {
    let mut found = 0;
    for seed in 0..40u64 {
        let grid = maze(seed, 14, 11);
        let expected = breadth_first(&grid, (0, 0), (13, 10));
        let route = a_star(&grid, (0, 0), (13, 10));
        assert_eq!(route.as_ref().map(|r| r.len() - 1), expected);
        if route.is_some() {
            found += 1;
        }
    }
    assert!(found > 0);
}

#[test]
fn route_length_matches_breadth_first_search_between_inner_cells() {
    for seed in 100..120u64 {
        let mut grid = maze(seed, 9, 9);
        grid[4][4] = 0;
        grid[8][0] = 0;
        let expected = breadth_first(&grid, (4, 4), (8, 0));
        let route = a_star(&grid, (4, 4), (8, 0));
        assert_eq!(route.map(|r| r.len() - 1), expected);
    }
}

#[test]
fn repeated_searches_return_the_same_route() {
    for seed in 0..10u64 {
        let grid = maze(seed, 10, 10);
        let first = a_star(&grid, (0, 0), (9, 9));
        let second = a_star(&grid, (0, 0), (9, 9));
        assert_eq!(first, second);
    }
    let open = vec![vec![0u8; 4]; 4];
    assert_eq!(a_star(&open, (0, 0), (3, 3)), a_star(&open, (0, 0), (3, 3)));
}

#[test]
fn a_cell_found_again_at_lower_cost_keeps_the_route_shortest() {
    let grid = vec![
        vec![0, 0, 0, 0, 0],
        vec![0, 1, 1, 1, 0],
        vec![0, 0, 0, 1, 0],
        vec![1, 1, 0, 1, 0],
        vec![0, 0, 0, 0, 0],
    ];
    let route = a_star(&grid, (0, 0), (4, 4)).unwrap();
    assert_eq!(route.len() - 1, 8);
    assert_route(&grid, &route, (0, 0), (4, 4));
}

#[test]
fn neighbors_come_right_down_left_up() {
    let grid = vec![vec![0u8; 3]; 3];
    assert_eq!(neighbors((1, 1), &grid), vec![(1, 2), (2, 1), (1, 0), (0, 1)]);
}

#[test]
fn neighbors_stay_inside_the_grid() {
    let grid = vec![vec![0u8; 3]; 2];
    assert_eq!(neighbors((0, 0), &grid), vec![(0, 1), (1, 0)]);
    assert_eq!(neighbors((1, 2), &grid), vec![(1, 1), (0, 2)]);
    assert_eq!(neighbors((0, 2), &grid), vec![(1, 2), (0, 1)]);
}

#[test]
fn neighbors_skip_blocked_cells() {
    let grid = vec![vec![0, 1, 0], vec![1, 0, 0], vec![0, 1, 0]];
    assert_eq!(neighbors((1, 1), &grid), vec![(1, 2)]);
    assert_eq!(neighbors((0, 0), &grid), vec![]);
}

#[test]
fn neighbors_of_a_cell_outside_the_grid() {
    let grid = vec![vec![0u8; 2]; 2];
    assert_eq!(neighbors((usize::MAX, 0), &grid), vec![]);
    assert_eq!(neighbors((0, usize::MAX), &grid), vec![]);
    assert_eq!(neighbors((2, 1), &grid), vec![(1, 1)]);
    assert_eq!(neighbors((0, 2), &grid), vec![(0, 1)]);
}

#[test]
fn reconstruct_path_follows_the_links_back() {
    let mut came_from = vec![vec![None; 3]; 2];
    came_from[0][1] = Some((0, 0));
    came_from[0][2] = Some((0, 1));
    came_from[1][2] = Some((0, 2));
    assert_eq!(
        reconstruct_path(came_from.clone(), (1, 2)),
        vec![(0, 0), (0, 1), (0, 2), (1, 2)]
    );
    assert_eq!(reconstruct_path(came_from.clone(), (0, 1)), vec![(0, 0), (0, 1)]);
    assert_eq!(reconstruct_path(came_from, (1, 0)), vec![(1, 0)]);
}
