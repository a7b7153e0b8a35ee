//! A solver for the sliding-squares puzzle: coloured squares are nudged one
//! cell at a time, push each other along, turn where the board tells them to,
//! and the puzzle is solved once every goal tile carries the square of its
//! colour.

pub mod chain;
pub mod elements;
pub mod equality;
pub mod laws;
pub mod order;
pub mod parser;
pub mod render;
pub mod search;
pub mod solver;
pub mod space;
pub mod visited;

pub use elements::{Dir, Game, GameData, Goal, Pos, Square, State, Turn};
pub use parser::{to_color, to_dir, to_pos, SquaresParser};
pub use solver::Solver;
