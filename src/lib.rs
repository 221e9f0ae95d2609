//! A grid world in which agents collect tiles and carry them to holes,
//! moving along shortest paths found by A* search.

pub mod astar;
pub mod grid;
pub mod location;
pub mod objects;

pub use location::{COLS, ROWS};
