//! Rules engine of a turn-based territorial conquest game on a hexagonal grid.

pub mod game;
pub mod hex;
pub mod tiered_prng;
pub mod generation;
pub mod events;
