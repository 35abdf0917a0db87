//! An 8-puzzle solver: board model, Manhattan heuristic, solvability parity,
//! input parsing and an A* search whose answers are proved to be move
//! sequences that really solve the puzzle.

pub mod board;
pub mod format;
pub mod heap;
pub mod parse;
pub mod reach;
pub mod search;
pub mod text;

pub use board::{is_solvable, Board};
pub use format::format_number;
pub use parse::parse_input;
pub use search::{solve_astar, AStar, AStarNode};
