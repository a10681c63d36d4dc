//! Shortest routes on a rectangular occupancy grid.
//!
//! A grid is a `Vec<Vec<u8>>` whose cells are `0` (passable) or non-zero
//! (blocked).  [`pathfinding::a_star`] finds a shortest orthogonal route
//! between two cells, [`input::find_route`] does so after testing its input,
//! [`generator::generate_large_matrix`] draws a random grid whose two
//! corner endpoints are always passable, and [`service::find_path`] answers
//! one request on such a grid.
//!
//! The modules, from the model to the search:
//! `grid` says what a grid and a route are; `heuristic` estimates distances;
//! `tally` sums over tables; `progress` holds what is true of a search
//! between two steps; `outcome` states the search as a function of its
//! input; `laws` states what every answer satisfies.

pub mod grid;
pub mod tally;
pub mod heuristic;
pub mod pathfinding;
pub mod progress;
pub mod outcome;
pub mod input;
pub mod laws;
pub mod generator;
pub mod service;
