//! A* pathfinding over weighted grids, with a randomized maze generator.
//!
//! The search works on integer cell coordinates and integer costs: every
//! distance formula rounds down to the nearest integer (so the heuristics
//! stay admissible lower bounds), and cost accumulation saturates at
//! `u64::MAX` instead of overflowing.

pub mod a_star;
pub mod heuristic;
pub mod maze;
pub mod node;
