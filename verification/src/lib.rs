//! Rule engine for a two-player card-placement board game.
//!
//! Players alternately place rank-ordered cards onto a grid, subject to
//! adjacency and blocking rules; the board is scored by counting aligned
//! runs of same-colour cards.  The crate covers the board and tile model,
//! placement legality, the blocking-propagation rule, the line-scoring
//! algorithm, and the move history with undo/redo and branching.

pub mod board;
pub mod game;
pub mod lines;
pub mod tile;
