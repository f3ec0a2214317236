//! Searches on a rectangular board of free and blocked cells: the shortest
//! path between two cells, the smallest loop through two cells, the growth
//! of a loop until it covers the free cells, and the search for a cycle
//! through all cells of a full grid; with them the cells, the snake and the
//! ranking that a game of snake builds on them.

pub mod constants;
pub mod chance;
pub mod common;
pub mod walk;
pub mod search;
pub mod progress;
pub mod optimal;
pub mod astar;
pub mod cycle;
pub mod longest;
pub mod game;
pub mod pathfind;
pub mod hamilton;
pub mod brain;
