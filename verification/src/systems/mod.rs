//! Per-frame systems whose arithmetic lives in the library.
pub mod entity_renderer;
