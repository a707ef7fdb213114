//! Game-playing research library: rule implementations for small
//! deterministic two-player zero-sum games, exact solvers, and the
//! bookkeeping around them, with their behaviour stated as contracts.

pub mod game;
pub mod zobrist;
pub mod games;
pub mod search;
pub mod text;
pub mod experiment;
pub mod training;
pub mod data;
pub mod features;
pub mod model;
pub mod sweep;
pub mod play;
pub mod evaluation;
