//! Tabular Q-learning over a rectangular grid maze.
//!
//! The library models the maze as a grid of integer cell codes, learns a
//! table of action values by repeated synchronous Bellman sweeps against a
//! fixed pre-training snapshot, and extracts a greedy path from the start
//! cell toward the goal. All values are held in integer reward units so that
//! every step of the pipeline carries a proved contract.

pub mod errors;
pub mod grid;
pub mod math;
pub mod motion;
pub mod qtable;
pub mod reward;
pub mod views;
