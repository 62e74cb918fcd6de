//! Shortest-route search between two cells of a binary-occupancy grid.
//!
//! The grid model ([`grid`]) answers bounds and occupancy queries over an
//! immutable rectangular field. The search engine ([`search`]) runs an
//! A*-style loop over it with an admissible Manhattan heuristic, and the
//! path module ([`path`]) states what a valid route is and what any valid
//! route costs at least.

pub mod grid;
pub mod path;
pub mod search;

pub use grid::{Cell, Coord, Grid};
pub use path::{has_path, is_valid_path, lemma_path_moves_at_least_manhattan};
pub use search::{
    endpoints_ok, find_path, get_heuristic, lemma_outcome_deterministic, pos_is_in_list,
    PathResult,
};
