//! The player entity and how it moves.
pub mod player;
