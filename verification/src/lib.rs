//! Overmap generation for a tile-based roguelike: chunk cursors, city road
//! networks, building placement, the tile grid that is rendered, and the
//! player's movement over it.
pub mod components;
pub mod ivec;
pub mod map;
pub mod outside;
pub mod player;
pub mod systems;
pub mod utils;
