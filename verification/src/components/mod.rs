//! The components that entities on the map carry.
pub mod position;
pub mod renderable;
