use astar_grid::generator::{generate_large_matrix, grid_from_draws};
use astar_grid::heuristic::{floor_sqrt, heuristic, SCALE};
use astar_grid::pathfinding::{a_star, make_table, min_index, set_entry, Node, UNKNOWN};

#[test]
fn floor_sqrt_rounds_down() {
    assert_eq!(floor_sqrt(0), 0);
    assert_eq!(floor_sqrt(1), 1);
    assert_eq!(floor_sqrt(3), 1);
    assert_eq!(floor_sqrt(4), 2);
    assert_eq!(floor_sqrt(24), 4);
    assert_eq!(floor_sqrt(25), 5);
    assert_eq!(floor_sqrt(1 << 64), 1 << 32);
    assert_eq!(floor_sqrt((1 << 64) - 1), (1 << 32) - 1);
    assert_eq!(floor_sqrt((1u128 << 126) - 1), (1u128 << 63) - 1);
}

#[test]
fn heuristic_is_the_straight_line_distance_in_fixed_point() {
    assert_eq!(SCALE, 65536);
    assert_eq!(heuristic((2, 3), (2, 3)), 0);
    assert_eq!(heuristic((0, 0), (3, 4)), 5 * 65536);
    assert_eq!(heuristic((3, 4), (0, 0)), 5 * 65536);
    assert_eq!(heuristic((0, 0), (0, 7)), 7 * 65536);
    assert_eq!(heuristic((0, 0), (1, 1)), 92681);
    assert_eq!(heuristic((5, 1), (4, 3)), 146542);
}

#[test]
fn heuristic_never_exceeds_the_step_count() {
    for r in 0..6usize {
        for c in 0..6usize {
            let steps = (r.abs_diff(2) + c.abs_diff(3)) as u128;
            assert!(heuristic((r, c), (2, 3)) <= steps * SCALE);
        }
    }
}

#[test]
fn heuristic_at_the_largest_grid() {
    let far = 0x7fff_ffffusize;
    let h = heuristic((0, 0), (far, far));
    let exact = (far as f64) * 2f64.sqrt() * 65536.0;
    assert!(((h as f64) - exact).abs() < 1.0e6);
    assert!(h * h <= 2 * (far as u128) * (far as u128) * 65536 * 65536);
    assert!((h + 1) * (h + 1) > 2 * (far as u128) * (far as u128) * 65536 * 65536);
}

#[test]
fn make_table_fills_every_entry() {
    assert_eq!(make_table(2, 3, 7u64), vec![vec![7, 7, 7], vec![7, 7, 7]]);
    assert_eq!(make_table(0, 3, 7u64), Vec::<Vec<u64>>::new());
    assert_eq!(make_table(2, 0, 7u64), vec![Vec::<u64>::new(), Vec::new()]);
    assert_eq!(UNKNOWN, u64::MAX);
}

#[test]
fn set_entry_replaces_one_entry() {
    let mut table = make_table(2, 2, 0u64);
    set_entry(&mut table, (1, 0), 9);
    assert_eq!(table, vec![vec![0, 0], vec![9, 0]]);
}

#[test]
fn min_index_takes_the_first_of_equal_priorities() {
    let node = |priority: u128| Node { position: (0, 0), cost: 0, priority };
    assert_eq!(min_index(&vec![node(5)]), 0);
    assert_eq!(min_index(&vec![node(5), node(3), node(4)]), 1);
    assert_eq!(min_index(&vec![node(5), node(3), node(3), node(7)]), 1);
    assert_eq!(min_index(&vec![node(2), node(3), node(2)]), 0);
}

#[test]
fn grid_from_draws_blocks_what_was_drawn() {
    let draws = vec![vec![false, true, false], vec![true, true, false]];
    assert_eq!(grid_from_draws(&draws), vec![vec![0, 1, 0], vec![1, 1, 0]]);
}

#[test]
fn grid_from_draws_keeps_the_endpoints_open() {
    let draws = vec![vec![true; 3]; 3];
    assert_eq!(
        grid_from_draws(&draws),
        vec![vec![0, 1, 1], vec![1, 1, 1], vec![1, 1, 0]]
    );
    assert_eq!(grid_from_draws(&vec![vec![true]]), vec![vec![0]]);
    assert_eq!(grid_from_draws(&vec![vec![true, true]]), vec![vec![0, 0]]);
}

#[test]
fn generated_grid_has_the_asked_shape_and_open_endpoints() {
    for _ in 0..50 {
        let grid = generate_large_matrix(7, 9);
        assert_eq!(grid.len(), 7);
        for row in &grid {
            assert_eq!(row.len(), 9);
            for &cell in row {
                assert!(cell <= 1);
            }
        }
        assert_eq!(grid[0][0], 0);
        assert_eq!(grid[6][8], 0);
    }
}

#[test]
fn generated_single_cell_grid_is_open() {
    for _ in 0..20 {
        assert_eq!(generate_large_matrix(1, 1), vec![vec![0]]);
    }
}

#[test]
fn generated_grid_blocks_about_three_cells_in_ten() {
    let grid = generate_large_matrix(100, 100);
    let blocked: usize = grid
        .iter()
        .map(|row| row.iter().filter(|&&cell| cell == 1).count())
        .sum();
    assert!(blocked > 2000, "blocked: {}", blocked);
    assert!(blocked < 4000, "blocked: {}", blocked);
}

#[test]
fn search_on_a_generated_grid_gives_a_route_or_none() {
    for _ in 0..5 {
        let grid = generate_large_matrix(100, 100);
        if let Some(route) = a_star(&grid, (0, 0), (99, 99)) {
            assert_eq!(route[0], (0, 0));
            assert_eq!(route[route.len() - 1], (99, 99));
            assert!(route.len() >= 199);
            for pair in route.windows(2) {
                assert_eq!(pair[0].0.abs_diff(pair[1].0) + pair[0].1.abs_diff(pair[1].1), 1);
                assert_eq!(grid[pair[1].0][pair[1].1], 0);
            }
        }
    }
}
