//! Rules engine for a four-player tile-placement game on a square grid.
pub mod board;
pub mod game;
pub mod moves;
pub mod pieces;
pub mod symmetry;
