//! Rule engine and rollout-based move selection for a 4x4 sliding-tile merge puzzle.

pub mod board;
pub mod laws;
pub mod moves;
pub mod policy;
pub mod row;
pub mod spawn;
