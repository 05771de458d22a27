//! The overmap, its generators and the tile data handed to the renderer.
pub mod chunk_cursor;
pub mod generator;
pub mod overmap_generator;
pub mod renderer;
pub mod roads;
