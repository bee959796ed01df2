//! Places an ordered list of words on a fixed-size grid, each along one of
//! eight straight directions, so that words sharing a cell agree on its letter.
//! The search is a randomized depth-first backtracking over every start cell
//! and direction of each word in turn.

pub mod board;
pub mod candidates;
pub mod error;
pub mod geometry;
pub mod placement;
pub mod solver;
pub mod spelling;
