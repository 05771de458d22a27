//! The player: reading the numpad into a move, moving, and where the map
//! chunks and other entities then appear on screen relative to the player.
use vstd::prelude::*;
use crate::ivec::{IVec2, fits_i32};
use crate::components::position::Position;
use crate::map::renderer::{CHUNK_SIZE, TILE_PIXEL_DISPLAY_SIZE};

verus! {

/// Marks the player entity.
pub struct Player;

/// The step the player wants to take this frame.
pub struct WantsToMove {
    pub direction: IVec2,
}

/// Which numpad keys are held: `n1` is numpad 1, and so on.
pub struct NumpadKeys {
    pub n1: bool,
    pub n2: bool,
    pub n3: bool,
    pub n4: bool,
    pub n6: bool,
    pub n7: bool,
    pub n8: bool,
    pub n9: bool,
}

/// 1 when `held`, else 0.
pub open spec fn unit_if(held: bool) -> int {
    if held { 1 } else { 0 }
}

/// The step the held numpad keys ask for: 7, 8 or 9 go up, 1, 2 or 3 down,
/// 1, 4 or 7 left and 3, 6 or 9 right; opposite keys cancel out.
pub fn player_input(keys: &NumpadKeys) -> (r: WantsToMove)
    ensures
        r.direction.x == unit_if(keys.n3 || keys.n6 || keys.n9) - unit_if(keys.n1 || keys.n4 || keys.n7),
        r.direction.y == unit_if(keys.n7 || keys.n8 || keys.n9) - unit_if(keys.n1 || keys.n2 || keys.n3),
{
    let mut direction = IVec2::zero();

    if keys.n7 || keys.n8 || keys.n9 {
        direction.y += 1;
    }

    if keys.n1 || keys.n2 || keys.n3 {
        direction.y -= 1;
    }

    if keys.n1 || keys.n4 || keys.n7 {
        direction.x -= 1;
    }

    if keys.n3 || keys.n6 || keys.n9 {
        direction.x += 1;
    }

    WantsToMove { direction }
}

/// Moves the player by the step it wants to take.
pub fn try_move_player(position: &mut Position, wants: &WantsToMove)
    requires
        fits_i32(old(position).0.x + wants.direction.x),
        fits_i32(old(position).0.y + wants.direction.y),
    ensures
        final(position).0.x == old(position).0.x + wants.direction.x,
        final(position).0.y == old(position).0.y + wants.direction.y,
{
    position.0.x = position.0.x + wants.direction.x;
    position.0.y = position.0.y + wants.direction.y;
}

/// The screen offset, in pixels, of the world tile `t` from the player's tile
/// `p` along one axis.
pub open spec fn pixel_offset(t: int, p: int) -> int {
    (t - p) * TILE_PIXEL_DISPLAY_SIZE
}

/// Where the lower-left tile of the tilemap chunk at `chunk_pos` appears,
/// in pixels from the player, who stands at the centre of the screen.
pub fn chunk_screen_offset(chunk_pos: IVec2, player: IVec2) -> (r: IVec2)
    requires
        fits_i32(chunk_pos.x * CHUNK_SIZE),
        fits_i32(chunk_pos.y * CHUNK_SIZE),
        fits_i32(pixel_offset(chunk_pos.x * CHUNK_SIZE, player.x as int)),
        fits_i32(pixel_offset(chunk_pos.y * CHUNK_SIZE, player.y as int)),
    ensures
        r.x == pixel_offset(chunk_pos.x * CHUNK_SIZE, player.x as int),
        r.y == pixel_offset(chunk_pos.y * CHUNK_SIZE, player.y as int),
{
    IVec2 {
        x: ((chunk_pos.x * CHUNK_SIZE) - player.x) * TILE_PIXEL_DISPLAY_SIZE,
        y: ((chunk_pos.y * CHUNK_SIZE) - player.y) * TILE_PIXEL_DISPLAY_SIZE,
    }
}

/// Where an entity standing on `position` appears, in pixels from the player.
pub fn entity_screen_offset(position: IVec2, player: IVec2) -> (r: IVec2)
    requires
        fits_i32(pixel_offset(position.x as int, player.x as int)),
        fits_i32(pixel_offset(position.y as int, player.y as int)),
    ensures
        r.x == pixel_offset(position.x as int, player.x as int),
        r.y == pixel_offset(position.y as int, player.y as int),
{
    IVec2 {
        x: (position.x - player.x) * TILE_PIXEL_DISPLAY_SIZE,
        y: (position.y - player.y) * TILE_PIXEL_DISPLAY_SIZE,
    }
}

/// Half a chunk, in pixels: a chunk's sprite is centred on its middle, so its
/// lower-left corner lies this far down and left of its position.
pub fn chunk_centre_offset() -> (r: i32)
    ensures
        r == (CHUNK_SIZE / 2) * TILE_PIXEL_DISPLAY_SIZE,
{
    (CHUNK_SIZE / 2) * TILE_PIXEL_DISPLAY_SIZE
}

} // verus!
