//! A cursor over the overmap: a chunk and a position inside it, moved a tile
//! at a time across chunk borders.
use vstd::prelude::*;
use crate::ivec::{IVec2, fits_i32};
use crate::map::overmap_generator::{
    chunks_full, local_in_chunk, tile_at, tile_index, wrote_tile, OvermapChunkCoords,
    OvermapTileType, OVERMAP_CHUNK_SIZE,
};
use crate::outside::{chunk_map, chunk_map_get, chunk_map_get_mut, ChunkMap};
use crate::utils::xy_idx;

verus! {

/// A position on the overmap, as a chunk and a local position in it.
#[derive(Debug)]
pub struct ChunkCursor {
    pub chunk_coord: OvermapChunkCoords,
    pub local_pos: IVec2,
}

/// The overmap-wide tile position of local position `pos` in chunk `chunk`.
pub open spec fn global_of(chunk: OvermapChunkCoords, pos: IVec2) -> (int, int) {
    (chunk.0.x * OVERMAP_CHUNK_SIZE + pos.x, chunk.0.y * OVERMAP_CHUNK_SIZE + pos.y)
}

/// The chunk and local position of the overmap-wide tile position `g`.
pub open spec fn cell_of(g: (int, int)) -> (OvermapChunkCoords, IVec2) {
    (
        OvermapChunkCoords(IVec2 {
            x: (g.0 / (OVERMAP_CHUNK_SIZE as int)) as i32,
            y: (g.1 / (OVERMAP_CHUNK_SIZE as int)) as i32,
        }),
        IVec2 {
            x: (g.0 % (OVERMAP_CHUNK_SIZE as int)) as i32,
            y: (g.1 % (OVERMAP_CHUNK_SIZE as int)) as i32,
        },
    )
}

/// The cursor after `step_x(delta)`: the local x moves by `delta`; a positive
/// step past the right edge wraps to 0 in the next chunk, and a non-positive
/// step past the left edge wraps to 127 in the previous chunk.
pub open spec fn stepped_x(c: ChunkCursor, delta: i32) -> ChunkCursor {
    let nx = c.local_pos.x + delta;
    if delta > 0 && nx >= OVERMAP_CHUNK_SIZE {
        ChunkCursor {
            chunk_coord: OvermapChunkCoords(IVec2 { x: (c.chunk_coord.0.x + 1) as i32, y: c.chunk_coord.0.y }),
            local_pos: IVec2 { x: 0, y: c.local_pos.y },
        }
    } else if delta <= 0 && nx < 0 {
        ChunkCursor {
            chunk_coord: OvermapChunkCoords(IVec2 { x: (c.chunk_coord.0.x - 1) as i32, y: c.chunk_coord.0.y }),
            local_pos: IVec2 { x: (OVERMAP_CHUNK_SIZE - 1) as i32, y: c.local_pos.y },
        }
    } else {
        ChunkCursor {
            chunk_coord: c.chunk_coord,
            local_pos: IVec2 { x: nx as i32, y: c.local_pos.y },
        }
    }
}

/// The cursor after `step_y(delta)`, as `stepped_x` along the other axis.
pub open spec fn stepped_y(c: ChunkCursor, delta: i32) -> ChunkCursor {
    let ny = c.local_pos.y + delta;
    if delta > 0 && ny >= OVERMAP_CHUNK_SIZE {
        ChunkCursor {
            chunk_coord: OvermapChunkCoords(IVec2 { x: c.chunk_coord.0.x, y: (c.chunk_coord.0.y + 1) as i32 }),
            local_pos: IVec2 { x: c.local_pos.x, y: 0 },
        }
    } else if delta <= 0 && ny < 0 {
        ChunkCursor {
            chunk_coord: OvermapChunkCoords(IVec2 { x: c.chunk_coord.0.x, y: (c.chunk_coord.0.y - 1) as i32 }),
            local_pos: IVec2 { x: c.local_pos.x, y: (OVERMAP_CHUNK_SIZE - 1) as i32 },
        }
    } else {
        ChunkCursor {
            chunk_coord: c.chunk_coord,
            local_pos: IVec2 { x: c.local_pos.x, y: ny as i32 },
        }
    }
}

/// `step_x(delta)` cannot overflow: the new local position fits, and the
/// chunk coordinate can move one chunk on the side that the step wraps to.
pub open spec fn can_step_x(c: ChunkCursor, delta: i32) -> bool {
    &&& fits_i32(c.local_pos.x + delta)
    &&& (delta > 0 && c.local_pos.x + delta >= OVERMAP_CHUNK_SIZE ==> c.chunk_coord.0.x < i32::MAX)
    &&& (delta <= 0 && c.local_pos.x + delta < 0 ==> c.chunk_coord.0.x > i32::MIN)
}

/// `step_y(delta)` cannot overflow: the new local position fits, and the
/// chunk coordinate can move one chunk on the side that the step wraps to.
pub open spec fn can_step_y(c: ChunkCursor, delta: i32) -> bool {
    &&& fits_i32(c.local_pos.y + delta)
    &&& (delta > 0 && c.local_pos.y + delta >= OVERMAP_CHUNK_SIZE ==> c.chunk_coord.0.y < i32::MAX)
    &&& (delta <= 0 && c.local_pos.y + delta < 0 ==> c.chunk_coord.0.y > i32::MIN)
}

/// `get_position_delta(delta)` cannot overflow.
pub open spec fn can_shift(c: ChunkCursor, delta: IVec2) -> bool {
    &&& fits_i32(delta.x + c.local_pos.x)
    &&& fits_i32(delta.y + c.local_pos.y)
    &&& fits_i32(c.chunk_coord.0.x + (delta.x + c.local_pos.x) / (OVERMAP_CHUNK_SIZE as int))
    &&& fits_i32(c.chunk_coord.0.y + (delta.y + c.local_pos.y) / (OVERMAP_CHUNK_SIZE as int))
}

/// The chunk and local position `delta` away from the cursor.
pub open spec fn shifted(c: ChunkCursor, delta: IVec2) -> (OvermapChunkCoords, IVec2) {
    (
        OvermapChunkCoords(IVec2 {
            x: (c.chunk_coord.0.x + (delta.x + c.local_pos.x) / (OVERMAP_CHUNK_SIZE as int)) as i32,
            y: (c.chunk_coord.0.y + (delta.y + c.local_pos.y) / (OVERMAP_CHUNK_SIZE as int)) as i32,
        }),
        IVec2 {
            x: ((delta.x + c.local_pos.x) % (OVERMAP_CHUNK_SIZE as int)) as i32,
            y: ((delta.y + c.local_pos.y) % (OVERMAP_CHUNK_SIZE as int)) as i32,
        },
    )
}

impl ChunkCursor {
    /// The overmap-wide tile position of the cursor.
    pub open spec fn global(&self) -> (int, int) {
        global_of(self.chunk_coord, self.local_pos)
    }

    /// The cursor's local position lies inside its chunk.
    pub open spec fn placed(&self) -> bool {
        local_in_chunk(self.local_pos)
    }

    /// Moves the cursor `delta` tiles along x, wrapping into the neighbouring
    /// chunk at a chunk edge.
    pub fn step_x(&mut self, delta: i32)
        requires
            can_step_x(*old(self), delta),
        ensures
            *final(self) == stepped_x(*old(self), delta),
    {
        self.local_pos.x = self.local_pos.x + delta;
        if delta > 0 {
            if self.local_pos.x >= OVERMAP_CHUNK_SIZE {
                self.local_pos.x = 0;
                self.chunk_coord.0.x = self.chunk_coord.0.x + 1;
            }
        } else {
            if self.local_pos.x < 0 {
                self.local_pos.x = OVERMAP_CHUNK_SIZE - 1;
                self.chunk_coord.0.x = self.chunk_coord.0.x - 1;
            }
        }
    }

    /// Moves the cursor `delta` tiles along y, wrapping into the neighbouring
    /// chunk at a chunk edge.
    pub fn step_y(&mut self, delta: i32)
        requires
            can_step_y(*old(self), delta),
        ensures
            *final(self) == stepped_y(*old(self), delta),
    {
        self.local_pos.y = self.local_pos.y + delta;
        if delta > 0 {
            if self.local_pos.y >= OVERMAP_CHUNK_SIZE {
                self.local_pos.y = 0;
                self.chunk_coord.0.y = self.chunk_coord.0.y + 1;
            }
        } else {
            if self.local_pos.y < 0 {
                self.local_pos.y = OVERMAP_CHUNK_SIZE - 1;
                self.chunk_coord.0.y = self.chunk_coord.0.y - 1;
            }
        }
    }

    /// The chunk and local position `delta` tiles away from the cursor.
    pub fn get_position_delta(&self, delta: IVec2) -> (r: (OvermapChunkCoords, IVec2))
        requires
            can_shift(*self, delta),
        ensures
            r == shifted(*self, delta),
            local_in_chunk(r.1),
    {
        let sum = delta.add(self.local_pos);
        let chunk_delta = sum.div_euclid(IVec2::splat(OVERMAP_CHUNK_SIZE));
        let new_pos = sum.rem_euclid(IVec2::splat(OVERMAP_CHUNK_SIZE));
        let new_chunk_coord = OvermapChunkCoords(self.chunk_coord.0.add(chunk_delta));
        (new_chunk_coord, new_pos)
    }

    /// The tile `delta` tiles away from the cursor, or `None` where that tile
    /// is unset or its chunk does not exist.
    pub fn peek_tile(&self, overmap_chunks: &ChunkMap, delta: IVec2) -> (r: Option<OvermapTileType>)
        requires
            can_shift(*self, delta),
            chunks_full(chunk_map(*overmap_chunks)),
        ensures
            r == tile_at(chunk_map(*overmap_chunks), shifted(*self, delta).0, shifted(*self, delta).1),
    {
        let (chunk_coord, new_pos) = self.get_position_delta(delta);
        match chunk_map_get(overmap_chunks, &chunk_coord) {
            Some(chunk) => {
                let idx = xy_idx(new_pos.x, new_pos.y, OVERMAP_CHUNK_SIZE as usize);
                chunk.overmap_tiles[idx]
            },
            None => None,
        }
    }

    /// Sets the tile under the cursor to `tile_type`, unless it holds a house.
    pub fn set_tile(&self, overmap_chunks: &mut ChunkMap, tile_type: OvermapTileType)
        requires
            self.placed(),
            chunk_map(*old(overmap_chunks)).contains_key(self.chunk_coord),
            chunks_full(chunk_map(*old(overmap_chunks))),
        ensures
            tile_at(chunk_map(*old(overmap_chunks)), self.chunk_coord, self.local_pos) == Some(OvermapTileType::House)
                ==> chunk_map(*final(overmap_chunks)) == chunk_map(*old(overmap_chunks)),
            tile_at(chunk_map(*old(overmap_chunks)), self.chunk_coord, self.local_pos) != Some(OvermapTileType::House)
                ==> wrote_tile(chunk_map(*old(overmap_chunks)), chunk_map(*final(overmap_chunks)),
                    self.chunk_coord, tile_index(self.local_pos), Some(tile_type)),
    {
        let idx = xy_idx(self.local_pos.x, self.local_pos.y, OVERMAP_CHUNK_SIZE as usize);
        let is_house = match chunk_map_get(overmap_chunks, &self.chunk_coord) {
            Some(chunk) => match chunk.overmap_tiles[idx] {
                Some(OvermapTileType::House) => true,
                _ => false,
            },
            None => false,
        };
        if !is_house {
            match chunk_map_get_mut(overmap_chunks, &self.chunk_coord) {
                Some(chunk) => {
                    chunk.overmap_tiles.set(idx, Some(tile_type));
                },
                None => {},
            }
            proof {
                let new_map = chunk_map(*overmap_chunks);
                let old_map = chunk_map(*old(overmap_chunks));
                assert(new_map.dom() =~= old_map.dom());
            }
        }
    }
}

/// A unit step along x keeps the cursor inside its chunk and moves its
/// overmap-wide position by exactly that step.
pub proof fn lemma_unit_step_x(c: ChunkCursor, delta: i32)
    requires
        c.placed(),
        -1 <= delta <= 1,
        can_step_x(c, delta),
    ensures
        stepped_x(c, delta).placed(),
        stepped_x(c, delta).global() == (c.global().0 + delta, c.global().1),
{
}

/// A unit step along y keeps the cursor inside its chunk and moves its
/// overmap-wide position by exactly that step.
pub proof fn lemma_unit_step_y(c: ChunkCursor, delta: i32)
    requires
        c.placed(),
        -1 <= delta <= 1,
        can_step_y(c, delta),
    ensures
        stepped_y(c, delta).placed(),
        stepped_y(c, delta).global() == (c.global().0, c.global().1 + delta),
{
}

/// A unit step along x is undone by the opposite step: the cursor comes
/// back to the same chunk and the same local position.
pub proof fn lemma_step_x_round_trip(c: ChunkCursor, delta: i32)
    requires
        c.placed(),
        delta == 1 || delta == -1,
        can_step_x(c, delta),
        can_step_x(stepped_x(c, delta), -delta as i32),
    ensures
        stepped_x(stepped_x(c, delta), -delta as i32) == c,
{
    lemma_unit_step_x(c, delta);
    lemma_unit_step_x(stepped_x(c, delta), -delta as i32);
    crate::map::overmap_generator::lemma_same_global_same_cell(stepped_x(stepped_x(c, delta), -delta as i32), c);
}

/// A unit step along y is undone by the opposite step.
pub proof fn lemma_step_y_round_trip(c: ChunkCursor, delta: i32)
    requires
        c.placed(),
        delta == 1 || delta == -1,
        can_step_y(c, delta),
        can_step_y(stepped_y(c, delta), -delta as i32),
    ensures
        stepped_y(stepped_y(c, delta), -delta as i32) == c,
{
    lemma_unit_step_y(c, delta);
    lemma_unit_step_y(stepped_y(c, delta), -delta as i32);
    crate::map::overmap_generator::lemma_same_global_same_cell(stepped_y(stepped_y(c, delta), -delta as i32), c);
}

/// The position `delta` away from a cursor is the cell of the cursor's
/// overmap-wide position moved by `delta`: its chunk times 128 plus its local
/// position is that global position, with the local position inside the chunk.
pub proof fn lemma_shift_is_global_move(c: ChunkCursor, delta: IVec2)
    requires
        can_shift(c, delta),
    ensures
        global_of(shifted(c, delta).0, shifted(c, delta).1) == (c.global().0 + delta.x, c.global().1 + delta.y),
        shifted(c, delta) == cell_of((c.global().0 + delta.x, c.global().1 + delta.y)),
        local_in_chunk(shifted(c, delta).1),
{
    let n = OVERMAP_CHUNK_SIZE as int;
    let sx = delta.x + c.local_pos.x;
    let sy = delta.y + c.local_pos.y;
    vstd::arithmetic::div_mod::lemma_fundamental_div_mod(sx, n);
    vstd::arithmetic::div_mod::lemma_fundamental_div_mod(sy, n);
    let gx = c.chunk_coord.0.x * n + sx;
    let gy = c.chunk_coord.0.y * n + sy;
    vstd::arithmetic::div_mod::lemma_fundamental_div_mod_converse(gx, n, c.chunk_coord.0.x + sx / n, sx % n);
    vstd::arithmetic::div_mod::lemma_fundamental_div_mod_converse(gy, n, c.chunk_coord.0.y + sy / n, sy % n);
    assert(c.global().0 + delta.x == gx);
    assert(c.global().1 + delta.y == gy);
}

} // verus!
