//! A push-puzzle engine: a bunny walks a board and nudges sleepy bunnies
//! into their beds. The move rules, the win test, undo and reset, the level
//! reader and a breadth-first solver are all proved against their contracts.
pub mod board;
pub mod level;
pub mod render;
pub mod solver;
pub mod state;
