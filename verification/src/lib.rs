//! Verified solver for a number-placement puzzle on an N by N grid: starting
//! from one cell, a token repeatedly jumps by one of eight fixed leaper
//! offsets, stamping each visited cell with the next number; a solution stamps
//! every cell exactly once.
//!
//! `model` holds the mathematical model, `state` the board and state types,
//! `search` the two search strategies, and `laws` the proved general
//! properties.

pub mod frontier;
pub mod laws;
pub mod model;
pub mod search;
pub mod state;

pub use search::solve;
pub use search::Scorer;
pub use search::Search;
pub use state::Move;
pub use state::State;
pub use model::Cell;
pub use model::StateView;
pub use model::MAX_SIZE;
