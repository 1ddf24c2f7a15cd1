//! Sliding-tile puzzle on a 4x4 grid: board model, heuristics, a priority
//! queue, and the A*, IDA* and beam searches over board configurations.
pub mod board;
pub mod heuristics;
pub mod min_heap;
pub mod plan;
pub mod search;
