//! Where entity sprites are placed and how large they are drawn.
use vstd::prelude::*;
use crate::ivec::{IVec2, fits_i32};
use crate::map::renderer::{TILE_PIXEL_DISPLAY_SIZE, TILE_PIXEL_SIZE};

verus! {

/// The pixel position of the lower-left corner of the sprite of an entity
/// standing on `position`.
pub fn sprite_pixel_position(position: IVec2) -> (r: IVec2)
    requires
        fits_i32(position.x * TILE_PIXEL_DISPLAY_SIZE),
        fits_i32(position.y * TILE_PIXEL_DISPLAY_SIZE),
    ensures
        r.x == position.x * TILE_PIXEL_DISPLAY_SIZE,
        r.y == position.y * TILE_PIXEL_DISPLAY_SIZE,
{
    IVec2 { x: position.x * TILE_PIXEL_DISPLAY_SIZE, y: position.y * TILE_PIXEL_DISPLAY_SIZE }
}

/// How many screen pixels each pixel of the sprite sheet covers.
pub fn sprite_scale() -> (r: i32)
    ensures
        r == TILE_PIXEL_DISPLAY_SIZE / TILE_PIXEL_SIZE,
{
    TILE_PIXEL_DISPLAY_SIZE / TILE_PIXEL_SIZE
}

} // verus!
