//! Puzzle solvers over plain text input, built around an incremental
//! nearest-neighbour connectivity engine for points in 3-D space
//! (`circuits`, with its laws in `circuit_laws`).
//!
//! The other solvers: dial rotations (`day1`), repeated digit sequences
//! (`day2`), battery banks (`day3`), paper-roll grids (`day4`), fresh-id
//! ranges (`day5`), beam splitters (`day7`), tile rectangles (`day9`) and
//! light buttons (`day10`). Shared pieces: `text` (bytes, lines, numbers),
//! `geometry` (points), `grid` (row-major grids) and `error`.

pub mod circuit_laws;
pub mod circuits;
pub mod day1;
pub mod day10;
pub mod day2;
pub mod day3;
pub mod day4;
pub mod day5;
pub mod day7;
pub mod day9;
pub mod error;
pub mod geometry;
pub mod grid;
pub mod text;
