//! Decision core of a bot for a grid-based territorial conquest game.
//!
//! The library maintains a locally simulatable copy of the game state that
//! can be mutated and reverted cheaply (an exact apply/undo pair), decodes
//! the sparse run-length diffs the server sends, enumerates legal moves, and
//! runs a statistics-driven rollout search that picks the next move within a
//! wall-clock budget.

pub mod action;
pub mod game;
pub mod search;
pub mod state;
mod sys;
