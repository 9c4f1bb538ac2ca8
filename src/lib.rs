//! The rule engine of a two-player game on a hexagonal grid: players place
//! rings, then in turn drop a marker in one of their rings and slide the
//! ring, turning over the markers it jumps; five markers in a row let their
//! owner take one of their rings off the board, and three rings taken off win.
//! Every command has an exact inverse, so any sequence of moves can be undone.
pub mod actions;
pub mod board;
pub mod coord;
pub mod entities;
pub mod game;
pub mod state;
