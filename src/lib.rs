//! Sliding-tile puzzle solver: boards of any side, the snail-shaped goal,
//! parity-based solvability, and A* / IDA* searches with pluggable heuristics.

pub mod complex;
pub mod grid;
