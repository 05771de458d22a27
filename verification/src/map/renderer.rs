//! The tile data the renderer draws: tile kinds per chunk, which tilemap
//! chunks to load around the player, and which glyph each tile shows.
use vstd::prelude::*;
use crate::ivec::{IVec2, abs_int, max_int};
use crate::map::generator::generate_overmap_chunk;
use crate::map::overmap_generator::{
    GameMap, OvermapChunk, OvermapTileType, OVERMAP_CHUNK_TILES, chunk_wf, map_wf, centre_ok,
    connected_around,
};
use crate::map::roads::links_have_roads;
use crate::outside::{
    chunk_map, chunk_map_new, chunk_map_keys, chunk_map_get, chunk_data_map, chunk_data_map_new,
    chunk_data_map_insert, random_range, seeded_rng, ChunkDataMap,
};
use crate::utils::xy_idx;

verus! {

/// The chunk position of a tilemap chunk entity.
pub struct ChunkPosition {
    pub pos: IVec2,
}

/// The tiles of one renderable chunk, row by row.
#[derive(Clone)]
pub struct ChunkData {
    pub tiles: Vec<TileType>,
}

/// The chunks the renderer knows of: the positions of the tilemap chunks
/// spawned so far, and the tile data of every generated chunk.
pub struct MapData {
    pub loaded_chunks: Vec<IVec2>,
    pub chunk_data: ChunkDataMap,
}

/// What a rendered tile shows.
#[derive(Clone, Copy, Debug, PartialEq, Eq, Structural)]
pub enum TileType {
    Wall,
    Floor,
    Test,
}

/// Side length of a tile in the tileset, in pixels.
pub const TILE_PIXEL_SIZE: i32 = 8;
/// Side length of a tile on screen, in pixels.
pub const TILE_PIXEL_DISPLAY_SIZE: i32 = 8;
/// Side length of a rendered chunk, in tiles.
pub const CHUNK_SIZE: i32 = 128;
/// Width of the test map, in tiles.
pub const MAP_SIZE_X: i32 = 512;
/// Height of the test map, in tiles.
pub const MAP_SIZE_Y: i32 = 512;

/// The rendered kind of an overmap tile: roads are drawn as walls, houses
/// with the test glyph, and unset tiles as floor.
pub open spec fn tile_type_of(t: Option<OvermapTileType>) -> TileType {
    match t {
        Some(OvermapTileType::Road) => TileType::Wall,
        Some(OvermapTileType::House) => TileType::Test,
        None => TileType::Floor,
    }
}

/// The renderable tile data of an overmap chunk, under its chunk coordinates.
pub fn overmap_tiles_to_chunk_data(overmap_chunk: &OvermapChunk) -> (r: (IVec2, ChunkData))
    ensures
        r.0 == overmap_chunk.coordinates.0,
        r.1.tiles@ == overmap_chunk.overmap_tiles@.map_values(|t: Option<OvermapTileType>| tile_type_of(t)),
{
    let mut tiles: Vec<TileType> = Vec::new();
    let mut j: usize = 0;
    while j < overmap_chunk.overmap_tiles.len()
        invariant
            j <= overmap_chunk.overmap_tiles@.len(),
            tiles@ == overmap_chunk.overmap_tiles@.take(j as int).map_values(|t: Option<OvermapTileType>| tile_type_of(t)),
        decreases overmap_chunk.overmap_tiles@.len() - j,
    {
        let tile = match overmap_chunk.overmap_tiles[j] {
            Some(tiletype) => match tiletype {
                OvermapTileType::Road => TileType::Wall,
                OvermapTileType::House => TileType::Test,
            },
            None => TileType::Floor,
        };
        tiles.push(tile);
        j += 1;
        proof {
            assert(tiles@ =~= overmap_chunk.overmap_tiles@.take(j as int).map_values(|t: Option<OvermapTileType>| tile_type_of(t)));
        }
    }
    proof {
        assert(overmap_chunk.overmap_tiles@.take(j as int) =~= overmap_chunk.overmap_tiles@);
    }
    (overmap_chunk.coordinates.0, ChunkData { tiles: tiles })
}

/// The quotient of `a` by `b` truncated towards zero, as Rust's `/` computes it.
pub open spec fn trunc_div(a: int, b: int) -> int {
    let q = abs_int(a) / abs_int(b);
    if (a >= 0) == (b > 0) { q } else { -q }
}

/// The truncated quotient, moved one further in the direction of `a`'s sign
/// when the division leaves a remainder.
pub open spec fn div_away_from_zero_spec(a: int, b: int) -> int {
    let q = trunc_div(a, b);
    if abs_int(a) % abs_int(b) == 0 {
        q
    } else if a >= 0 {
        q + 1
    } else {
        q - 1
    }
}

/// Divides `a` by `b`, rounding a non-exact quotient one step further in the
/// direction of `a`'s sign.
pub fn div_away_from_zero(a: i32, b: i32) -> (r: i32)
    requires
        b != 0,
        !(a == i32::MIN && b == -1),
    ensures
        r == div_away_from_zero_spec(a as int, b as int),
{
    let aa: i64 = if a < 0 { -(a as i64) } else { a as i64 };
    let bb: i64 = if b < 0 { -(b as i64) } else { b as i64 };
    let magnitude: i64 = aa / bb;
    let rest: i64 = aa % bb;
    let q: i64 = if (a >= 0) == (b > 0) { magnitude } else { -magnitude };
    proof {
        assert(aa == abs_int(a as int));
        assert(bb == abs_int(b as int));
        assert(0 <= magnitude <= aa) by {
            vstd::arithmetic::div_mod::lemma_div_is_ordered(0, aa as int, bb as int);
            vstd::arithmetic::div_mod::lemma_div_is_ordered_by_denominator(aa as int, 1, bb as int);
        }
        assert(q == trunc_div(a as int, b as int));
        assert(rest == abs_int(a as int) % abs_int(b as int));
        if a == i32::MIN && b < 0 {
            assert(bb >= 2);
            vstd::arithmetic::div_mod::lemma_div_is_ordered_by_denominator(aa as int, 2, bb as int);
        }
        assert(i32::MIN <= q <= i32::MAX);
        if rest != 0 {
            assert(bb != 1);
            assert(magnitude < i32::MAX) by {
                vstd::arithmetic::div_mod::lemma_div_is_ordered_by_denominator(aa as int, 2, bb as int);
            }
        }
    }
    if rest == 0 {
        q as i32
    } else if a >= 0 {
        (q + 1) as i32
    } else {
        (q - 1) as i32
    }
}

/// For a positive divisor, the quotient is rounded away from zero: up for a
/// non-negative dividend, down for a negative one.
pub proof fn lemma_div_away_from_zero_rounds_outward(a: int, b: int)
    requires
        b > 0,
    ensures
        a >= 0 ==> div_away_from_zero_spec(a, b) * b >= a && div_away_from_zero_spec(a, b) * b < a + b,
        a < 0 ==> div_away_from_zero_spec(a, b) * b <= a && div_away_from_zero_spec(a, b) * b > a - b,
{
    let m = abs_int(a);
    vstd::arithmetic::div_mod::lemma_fundamental_div_mod(m, b);
    let q = m / b;
    let r = m % b;
    let d = div_away_from_zero_spec(a, b);
    assert(0 <= r < b);
    assert(m == b * q + r);
    if a >= 0 {
        assert(d == (if r == 0 { q } else { q + 1 }));
        assert(d * b >= a && d * b < a + b) by (nonlinear_arith)
            requires
                a == b * q + r,
                0 <= r < b,
                d == (if r == 0 { q } else { q + 1 }),
        ;
    } else {
        assert(d == (if r == 0 { -q } else { -q - 1 }));
        assert(d * b <= a && d * b > a - b) by (nonlinear_arith)
            requires
                -a == b * q + r,
                0 <= r < b,
                d == (if r == 0 { -q } else { -q - 1 }),
        ;
    }
}

/// Negating the dividend negates the quotient: the rounding is symmetric
/// about zero.
pub proof fn lemma_div_away_from_zero_symmetric(a: int, b: int)
    requires
        b != 0,
    ensures
        div_away_from_zero_spec(-a, b) == -div_away_from_zero_spec(a, b),
{
    assert(abs_int(-a) == abs_int(a));
    let q = abs_int(a) / abs_int(b);
    if a == 0 {
        assert(abs_int(a) == 0);
        assert(0int / abs_int(b) == 0) by (nonlinear_arith)
            requires
                abs_int(b) > 0,
        ;
        assert(0int % abs_int(b) == 0) by (nonlinear_arith)
            requires
                abs_int(b) > 0,
        ;
    }
}

/// Chunks are laid out from the origin: chunk `(cx, cy)` holds the tiles
/// from `cx * CHUNK_SIZE` up to (not including) `(cx + 1) * CHUNK_SIZE` along
/// x, and likewise along y, so `(1, 0)` lies right of `(0, 0)` and `(0, 1)`
/// above it.
pub proof fn lemma_chunk_of_tile_covers(p: IVec2)
    ensures
        chunk_of_tile(p).x * CHUNK_SIZE <= p.x < (chunk_of_tile(p).x + 1) * CHUNK_SIZE,
        chunk_of_tile(p).y * CHUNK_SIZE <= p.y < (chunk_of_tile(p).y + 1) * CHUNK_SIZE,
{
    vstd::arithmetic::div_mod::lemma_fundamental_div_mod(p.x as int, CHUNK_SIZE as int);
    vstd::arithmetic::div_mod::lemma_fundamental_div_mod(p.y as int, CHUNK_SIZE as int);
    assert(i32::MIN / 128 <= (p.x as int) / 128 <= i32::MAX / 128) by {
        vstd::arithmetic::div_mod::lemma_div_is_ordered(i32::MIN as int, p.x as int, 128);
        vstd::arithmetic::div_mod::lemma_div_is_ordered(p.x as int, i32::MAX as int, 128);
    }
    assert(i32::MIN / 128 <= (p.y as int) / 128 <= i32::MAX / 128) by {
        vstd::arithmetic::div_mod::lemma_div_is_ordered(i32::MIN as int, p.y as int, 128);
        vstd::arithmetic::div_mod::lemma_div_is_ordered(p.y as int, i32::MAX as int, 128);
    }
}

/// The positions within `d` chunks of `c`, column by column: `x` from
/// `c.x - d` upwards, and within a column `y` from `c.y - d` upwards.
pub open spec fn adjacent_positions(c: IVec2, d: int) -> Seq<IVec2> {
    let w = 2 * d + 1;
    if d < 0 {
        Seq::empty()
    } else {
        Seq::new((w * w) as nat, |k: int| IVec2 { x: (c.x + k / w - d) as i32, y: (c.y + k % w - d) as i32 })
    }
}

/// The chunk positions within `distance` of `chunk_coordinate` along both axes.
pub fn get_adjacent_chunk_positions(chunk_coordinate: IVec2, distance: i32) -> (r: Vec<IVec2>)
    requires
        distance < i32::MAX,
        distance < 0 || (crate::ivec::fits_i32(chunk_coordinate.x - distance) && crate::ivec::fits_i32(chunk_coordinate.x + distance)
            && crate::ivec::fits_i32(chunk_coordinate.y - distance) && crate::ivec::fits_i32(chunk_coordinate.y + distance)),
    ensures
        r@ == adjacent_positions(chunk_coordinate, distance as int),
{
    let mut adjacent_positions: Vec<IVec2> = Vec::new();
    if distance < 0 {
        return adjacent_positions;
    }
    let ghost w = 2 * distance + 1;
    let mut x: i32 = -distance;
    proof {
        assert((x + distance) * w == 0) by (nonlinear_arith)
            requires
                x + distance == 0,
        ;
        assert(adjacent_positions@ =~= Seq::new(((x + distance) * w) as nat,
            |k: int| IVec2 { x: (chunk_coordinate.x + k / w - distance) as i32, y: (chunk_coordinate.y + k % w - distance) as i32 }));
    }
    while x <= distance
        invariant
            0 <= distance < i32::MAX,
            w == 2 * distance + 1,
            -distance <= x <= distance + 1,
            crate::ivec::fits_i32(chunk_coordinate.x - distance) && crate::ivec::fits_i32(chunk_coordinate.x + distance),
            crate::ivec::fits_i32(chunk_coordinate.y - distance) && crate::ivec::fits_i32(chunk_coordinate.y + distance),
            adjacent_positions@ == Seq::new(((x + distance) * w) as nat,
                |k: int| IVec2 { x: (chunk_coordinate.x + k / w - distance) as i32, y: (chunk_coordinate.y + k % w - distance) as i32 }),
        decreases distance + 1 - x,
    {
        let mut y: i32 = -distance;
        while y <= distance
            invariant
                0 <= distance < i32::MAX,
                w == 2 * distance + 1,
                -distance <= x <= distance,
                -distance <= y <= distance + 1,
                crate::ivec::fits_i32(chunk_coordinate.x - distance) && crate::ivec::fits_i32(chunk_coordinate.x + distance),
                crate::ivec::fits_i32(chunk_coordinate.y - distance) && crate::ivec::fits_i32(chunk_coordinate.y + distance),
                adjacent_positions@ == Seq::new(((x + distance) * w + (y + distance)) as nat,
                    |k: int| IVec2 { x: (chunk_coordinate.x + k / w - distance) as i32, y: (chunk_coordinate.y + k % w - distance) as i32 }),
            decreases distance + 1 - y,
        {
            let ghost k = (x + distance) * w + (y + distance);
            proof {
                vstd::arithmetic::div_mod::lemma_fundamental_div_mod_converse(k, w, x + distance, y + distance);
                assert(k >= 0) by (nonlinear_arith)
                    requires
                        k == (x + distance) * w + (y + distance),
                        x + distance >= 0,
                        y + distance >= 0,
                        w > 0,
                ;
            }
            adjacent_positions.push(chunk_coordinate.add(IVec2 { x, y }));
            proof {
                assert(adjacent_positions@ =~= Seq::new((k + 1) as nat,
                    |k: int| IVec2 { x: (chunk_coordinate.x + k / w - distance) as i32, y: (chunk_coordinate.y + k % w - distance) as i32 }));
            }
            y += 1;
        }
        proof {
            assert((x + distance) * w + (distance + 1 + distance) == (x + 1 + distance) * w) by (nonlinear_arith)
                requires
                    w == 2 * distance + 1,
            ;
        }
        x += 1;
    }
    proof {
        assert(((distance + 1 + distance) * w) == w * w);
    }
    adjacent_positions
}

/// The tileset glyph of tile `idx` of the chunk at `chunk_pos`: the marker
/// glyph 4 on the first tile of the origin chunk, else 1 for walls, 44 for
/// floor and 22 for the test tile.
pub open spec fn tileset_index_of(chunk_pos: IVec2, idx: i32, tile: TileType) -> u16 {
    if chunk_pos.x == 0 && chunk_pos.y == 0 && idx == 0 {
        4
    } else {
        match tile {
            TileType::Wall => 1,
            TileType::Floor => 44,
            TileType::Test => 22,
        }
    }
}

/// The marker glyph 4 marks exactly one tile of the overmap: the first tile
/// of the chunk at the origin. Every other tile shows the glyph of its type,
/// which is never the marker.
pub proof fn lemma_marker_only_at_origin(chunk_pos: IVec2, idx: i32, tile: TileType)
    ensures
        (tileset_index_of(chunk_pos, idx, tile) == 4) == (chunk_pos.x == 0 && chunk_pos.y == 0 && idx == 0),
        tile == TileType::Floor && !(chunk_pos.x == 0 && chunk_pos.y == 0 && idx == 0)
            ==> tileset_index_of(chunk_pos, idx, tile) == 44,
        tile == TileType::Wall && !(chunk_pos.x == 0 && chunk_pos.y == 0 && idx == 0)
            ==> tileset_index_of(chunk_pos, idx, tile) == 1,
        tile == TileType::Test && !(chunk_pos.x == 0 && chunk_pos.y == 0 && idx == 0)
            ==> tileset_index_of(chunk_pos, idx, tile) == 22,
{
}

/// The tileset glyph of tile `idx` of the chunk at `chunk_pos`.
pub fn tileset_index(chunk_pos: IVec2, idx: i32, tile: TileType) -> (r: u16)
    ensures
        r == tileset_index_of(chunk_pos, idx, tile),
        chunk_pos.x == 0 && chunk_pos.y == 0 && idx == 0 ==> r == 4,
        !(chunk_pos.x == 0 && chunk_pos.y == 0 && idx == 0) ==> {
            &&& tile == TileType::Wall ==> r == 1
            &&& tile == TileType::Floor ==> r == 44
            &&& tile == TileType::Test ==> r == 22
        },
{
    if chunk_pos.x == 0 && chunk_pos.y == 0 && idx == 0 {
        4
    } else {
        match tile {
            TileType::Wall => 1,
            TileType::Floor => 44,
            TileType::Test => 22,
        }
    }
}

/// The tileset glyph of every tile of a chunk: entry `idx` is the glyph of
/// tile `idx` of `tiles` in the chunk at `chunk_pos`.
pub fn chunk_tileset_indices(chunk_pos: IVec2, tiles: &Vec<TileType>) -> (r: Vec<u16>)
    requires
        tiles@.len() >= CHUNK_SIZE * CHUNK_SIZE,
    ensures
        r@.len() == CHUNK_SIZE * CHUNK_SIZE,
        forall|idx: int| 0 <= idx < CHUNK_SIZE * CHUNK_SIZE ==>
            #[trigger] r@[idx] == tileset_index_of(chunk_pos, idx as i32, tiles@[idx]),
{
    let mut indices: Vec<u16> = Vec::new();
    let mut idx: i32 = 0;
    while idx < CHUNK_SIZE * CHUNK_SIZE
        invariant
            0 <= idx <= CHUNK_SIZE * CHUNK_SIZE,
            tiles@.len() >= CHUNK_SIZE * CHUNK_SIZE,
            indices@.len() == idx,
            forall|k: int| 0 <= k < idx ==> #[trigger] indices@[k] == tileset_index_of(chunk_pos, k as i32, tiles@[k]),
        decreases CHUNK_SIZE * CHUNK_SIZE - idx,
    {
        indices.push(tileset_index(chunk_pos, idx, tiles[idx as usize]));
        idx += 1;
    }
    indices
}

/// The pixel position of the lower-left corner of the tilemap chunk at `chunk_pos`.
pub fn chunk_pixel_origin(chunk_pos: IVec2) -> (r: IVec2)
    requires
        crate::ivec::fits_i32(chunk_pos.x * CHUNK_SIZE * TILE_PIXEL_DISPLAY_SIZE),
        crate::ivec::fits_i32(chunk_pos.y * CHUNK_SIZE * TILE_PIXEL_DISPLAY_SIZE),
    ensures
        r.x == chunk_pos.x * CHUNK_SIZE * TILE_PIXEL_DISPLAY_SIZE,
        r.y == chunk_pos.y * CHUNK_SIZE * TILE_PIXEL_DISPLAY_SIZE,
{
    IVec2 {
        x: chunk_pos.x * CHUNK_SIZE * TILE_PIXEL_DISPLAY_SIZE,
        y: chunk_pos.y * CHUNK_SIZE * TILE_PIXEL_DISPLAY_SIZE,
    }
}

/// `s` with its first occurrence of `x` removed, if any.
pub open spec fn remove_first(s: Seq<IVec2>, x: IVec2) -> Seq<IVec2>
    decreases s.len(),
{
    if s.len() == 0 {
        s
    } else if s[0] == x {
        s.drop_first()
    } else {
        seq![s[0]] + remove_first(s.drop_first(), x)
    }
}

/// What to do with the tilemap chunks around the player: which spawned
/// chunks (by index into the list passed in) to despawn, and which chunk
/// positions to spawn.
pub struct ChunkLoadPlan {
    pub despawn: Vec<usize>,
    pub spawn: Vec<IVec2>,
}

/// The index of the first element of `s` equal to `x`.
fn position_of(s: &Vec<IVec2>, x: IVec2) -> (r: Option<usize>)
    ensures
        r matches Some(i) ==> i < s@.len() && s@[i as int] == x && forall|j: int| 0 <= j < i ==> s@[j] != x,
        r is None ==> !s@.contains(x),
{
    let mut j: usize = 0;
    while j < s.len()
        invariant
            j <= s@.len(),
            forall|q: int| 0 <= q < j ==> s@[q] != x,
        decreases s@.len() - j,
    {
        if s[j] == x {
            return Some(j);
        }
        j += 1;
    }
    None
}

/// Removing the first occurrence found by `position_of`.
proof fn lemma_remove_at_first(s: Seq<IVec2>, x: IVec2, i: int)
    requires
        0 <= i < s.len(),
        s[i] == x,
        forall|j: int| 0 <= j < i ==> s[j] != x,
    ensures
        s.remove(i) == remove_first(s, x),
    decreases i,
{
    if i == 0 {
        assert(s.remove(0) =~= s.drop_first());
    } else {
        lemma_remove_at_first(s.drop_first(), x, i - 1);
        assert(s.remove(i) =~= seq![s[0]] + s.drop_first().remove(i - 1));
    }
}

/// Nothing is removed when `x` does not occur.
proof fn lemma_remove_absent(s: Seq<IVec2>, x: IVec2)
    requires
        !s.contains(x),
    ensures
        remove_first(s, x) == s,
    decreases s.len(),
{
    if s.len() > 0 {
        assert(!s.drop_first().contains(x)) by {
            if s.drop_first().contains(x) {
                let j = choose|j: int| 0 <= j < s.drop_first().len() && s.drop_first()[j] == x;
                assert(s[j + 1] == x);
            }
        }
        lemma_remove_absent(s.drop_first(), x);
        assert(seq![s[0]] + s.drop_first() =~= s);
    }
}

/// The elements of `s` that `xs` does not contain, in order.
pub open spec fn without(s: Seq<IVec2>, xs: Seq<IVec2>) -> Seq<IVec2>
    decreases s.len(),
{
    if s.len() == 0 {
        s
    } else if xs.contains(s[0]) {
        without(s.drop_first(), xs)
    } else {
        seq![s[0]] + without(s.drop_first(), xs)
    }
}

/// Excluding nothing keeps everything.
proof fn lemma_without_none(s: Seq<IVec2>)
    ensures
        without(s, Seq::empty()) == s,
    decreases s.len(),
{
    if s.len() > 0 {
        lemma_without_none(s.drop_first());
        assert(seq![s[0]] + s.drop_first() =~= s);
    }
}

/// Excluding an element that `s` does not hold changes nothing.
proof fn lemma_without_absent(s: Seq<IVec2>, xs: Seq<IVec2>, x: IVec2)
    requires
        !s.contains(x),
    ensures
        without(s, xs.push(x)) == without(s, xs),
    decreases s.len(),
{
    if s.len() > 0 {
        assert(!s.drop_first().contains(x)) by {
            if s.drop_first().contains(x) {
                let j = choose|j: int| 0 <= j < s.drop_first().len() && s.drop_first()[j] == x;
                assert(s[j + 1] == x);
            }
        }
        lemma_without_absent(s.drop_first(), xs, x);
        assert(s[0] != x);
        lemma_push_contains(xs, x);
        assert(xs.push(x).contains(s[0]) == xs.contains(s[0]));
    }
}

/// Excluding one more element of a sequence without duplicates removes its
/// one occurrence from what was left.
proof fn lemma_without_push(s: Seq<IVec2>, xs: Seq<IVec2>, x: IVec2)
    requires
        s.no_duplicates(),
    ensures
        without(s, xs.push(x)) == remove_first(without(s, xs), x),
    decreases s.len(),
{
    if s.len() > 0 {
        let rest = s.drop_first();
        assert(rest.no_duplicates()) by {
            assert forall|i: int, j: int| 0 <= i < rest.len() && 0 <= j < rest.len() && i != j implies rest[i] != rest[j] by {
                assert(rest[i] == s[i + 1]);
                assert(rest[j] == s[j + 1]);
            }
        }
        lemma_push_contains(xs, x);
        assert(xs.push(x).contains(s[0]) == (xs.contains(s[0]) || s[0] == x));
        lemma_without_push(rest, xs, x);
        if xs.contains(s[0]) {
        } else if s[0] == x {
            assert(!rest.contains(x)) by {
                if rest.contains(x) {
                    let j = choose|j: int| 0 <= j < rest.len() && rest[j] == x;
                    assert(s[j + 1] == s[0]);
                }
            }
            lemma_without_absent(rest, xs, x);
            let w = seq![s[0]] + without(rest, xs);
            assert(w[0] == x);
            assert(w.drop_first() =~= without(rest, xs));
        } else {
            let w = seq![s[0]] + without(rest, xs);
            assert(w[0] != x);
            assert(w.drop_first() =~= without(rest, xs));
            assert(seq![s[0]] + remove_first(without(rest, xs), x) =~= seq![w[0]] + remove_first(w.drop_first(), x));
        }
    }
}

/// `s` with the first occurrence of each of `ps` removed in turn.
pub open spec fn remove_each(s: Seq<IVec2>, ps: Seq<IVec2>) -> Seq<IVec2>
    decreases ps.len(),
{
    if ps.len() == 0 {
        s
    } else {
        remove_first(remove_each(s, ps.drop_last()), ps.last())
    }
}

/// The chunk positions that the despawned indices point at, in order.
pub open spec fn despawned_positions(spawned: Seq<IVec2>, despawn: Seq<usize>) -> Seq<IVec2> {
    despawn.map_values(|j: usize| spawned[j as int])
}

/// The chunk that the tile position `p` lies in.
pub open spec fn chunk_of_tile(p: IVec2) -> IVec2 {
    IVec2 { x: ((p.x as int) / (CHUNK_SIZE as int)) as i32, y: ((p.y as int) / (CHUNK_SIZE as int)) as i32 }
}

/// The positions around `c` are distinct and within one chunk of it.
proof fn lemma_adjacent_one(c: IVec2)
    requires
        i32::MIN < c.x < i32::MAX,
        i32::MIN < c.y < i32::MAX,
    ensures
        adjacent_positions(c, 1).len() == 9,
        adjacent_positions(c, 1).no_duplicates(),
        forall|p: IVec2| adjacent_positions(c, 1).contains(p) ==> max_int(abs_int(c.x - p.x), abs_int(c.y - p.y)) <= 1,
        forall|p: IVec2| max_int(abs_int(c.x - p.x), abs_int(c.y - p.y)) <= 1 ==> adjacent_positions(c, 1).contains(p),
{
    let a = adjacent_positions(c, 1);
    assert forall|k: int| 0 <= k < 9 implies
        0 <= #[trigger] (k / 3) <= 2 && 0 <= k % 3 <= 2 && k == (k / 3) * 3 + k % 3 by {
        vstd::arithmetic::div_mod::lemma_fundamental_div_mod(k, 3);
        vstd::arithmetic::div_mod::lemma_div_is_ordered(0, k, 3);
        vstd::arithmetic::div_mod::lemma_div_is_ordered(k, 8, 3);
    }
    assert(2 * 1 + 1 == 3);
    assert(a.len() == ((3 * 3) as nat));
    assert forall|i: int, j: int| 0 <= i < a.len() && 0 <= j < a.len() && i != j implies a[i] != a[j] by {
        assert(0 <= i / 3 <= 2 && 0 <= i % 3 <= 2 && i == (i / 3) * 3 + i % 3);
        assert(0 <= j / 3 <= 2 && 0 <= j % 3 <= 2 && j == (j / 3) * 3 + j % 3);
        assert(a[i].x == c.x + i / 3 - 1);
        assert(a[i].y == c.y + i % 3 - 1);
        assert(a[j].x == c.x + j / 3 - 1);
        assert(a[j].y == c.y + j % 3 - 1);
    }
    assert forall|i: int| 0 <= i < a.len() implies max_int(abs_int(c.x - (#[trigger] a[i]).x), abs_int(c.y - a[i].y)) <= 1 by {
        assert(0 <= i / 3 <= 2 && 0 <= i % 3 <= 2);
        assert(a[i].x == c.x + i / 3 - 1);
        assert(a[i].y == c.y + i % 3 - 1);
    }
    assert forall|p: IVec2| max_int(abs_int(c.x - p.x), abs_int(c.y - p.y)) <= 1 implies a.contains(p) by {
        let k = (p.x - c.x + 1) * 3 + (p.y - c.y + 1);
        vstd::arithmetic::div_mod::lemma_fundamental_div_mod_converse(k, 3, p.x - c.x + 1, p.y - c.y + 1);
        assert(0 <= k < 9);
        assert(a[k].x == p.x && a[k].y == p.y);
        assert(a[k] == p);
    }
}

/// What a sequence with one element pushed contains.
proof fn lemma_push_contains(s: Seq<IVec2>, x: IVec2)
    ensures
        forall|q: IVec2| #[trigger] s.push(x).contains(q) <==> (s.contains(q) || q == x),
{
    assert forall|q: IVec2| #[trigger] s.push(x).contains(q) <==> (s.contains(q) || q == x) by {
        if s.push(x).contains(q) {
            let j = choose|j: int| 0 <= j < s.push(x).len() && s.push(x)[j] == q;
            if j < s.len() { assert(s[j] == q); }
        }
        if s.contains(q) {
            let j = choose|j: int| 0 <= j < s.len() && s[j] == q;
            assert(s.push(x)[j] == q);
        }
        if q == x {
            assert(s.push(x)[s.len() as int] == q);
        }
    }
}

/// Removing one element of a sequence without duplicates.
proof fn lemma_remove_distinct(s: Seq<IVec2>, i: int)
    requires
        s.no_duplicates(),
        0 <= i < s.len(),
    ensures
        s.remove(i).no_duplicates(),
        forall|q: IVec2| s.remove(i).contains(q) <==> (s.contains(q) && q != s[i]),
{
    let r = s.remove(i);
    assert forall|q: IVec2| r.contains(q) <==> (s.contains(q) && q != s[i]) by {
        if r.contains(q) {
            let j = choose|j: int| 0 <= j < r.len() && r[j] == q;
            if j < i { assert(s[j] == q); } else { assert(s[j + 1] == q); }
        }
        if s.contains(q) && q != s[i] {
            let j = choose|j: int| 0 <= j < s.len() && s[j] == q;
            if j < i { assert(r[j] == q); } else { assert(r[j - 1] == q); }
        }
    }
    assert forall|a: int, b: int| 0 <= a < r.len() && 0 <= b < r.len() && a != b implies r[a] != r[b] by {
        let sa = if a < i { a } else { a + 1 };
        let sb = if b < i { b } else { b + 1 };
        assert(r[a] == s[sa]);
        assert(r[b] == s[sb]);
    }
}

/// Decides which tilemap chunks to keep, drop and create around the player
/// at tile position `player_pos`, given the chunk positions of the tilemap
/// chunks already spawned. The 3 x 3 chunks around the player's chunk are
/// wanted; a spawned chunk that is wanted is kept, one more than two chunks
/// away is despawned and forgotten from `loaded_chunks`, and every wanted
/// chunk not yet spawned is spawned and recorded in `loaded_chunks`.
pub fn plan_chunk_loads(player_pos: IVec2, spawned: &Vec<IVec2>, loaded_chunks: &mut Vec<IVec2>) -> (plan: ChunkLoadPlan)
    ensures
        ({
            let c = chunk_of_tile(player_pos);
            &&& plan.spawn@ == without(adjacent_positions(c, 1), spawned@)
            &&& plan.spawn@.no_duplicates()
            &&& forall|p: IVec2| plan.spawn@.contains(p)
                <==> (max_int(abs_int(c.x - p.x), abs_int(c.y - p.y)) <= 1 && !spawned@.contains(p))
            &&& forall|k: int| 0 <= k < plan.despawn@.len() ==> #[trigger] plan.despawn@[k] < spawned@.len()
            &&& forall|k: int, q: int| 0 <= k < q < plan.despawn@.len() ==> plan.despawn@[k] < plan.despawn@[q]
            &&& forall|j: int| 0 <= j < spawned@.len() ==>
                (plan.despawn@.contains(j as usize) <==> max_int(abs_int(c.x - spawned@[j].x), abs_int(c.y - spawned@[j].y)) > 2)
            &&& final(loaded_chunks)@ == remove_each(old(loaded_chunks)@, despawned_positions(spawned@, plan.despawn@)) + plan.spawn@
        }),
{
    let chunk_coordinate = player_pos.div_euclid(IVec2 { x: CHUNK_SIZE, y: CHUNK_SIZE });
    let ghost c = chunk_of_tile(player_pos);
    proof {
        assert(chunk_coordinate == c);
        assert(-16777216 <= c.x <= 16777216) by {
            vstd::arithmetic::div_mod::lemma_div_is_ordered(player_pos.x as int, i32::MAX as int, 128);
            vstd::arithmetic::div_mod::lemma_div_is_ordered(i32::MIN as int, player_pos.x as int, 128);
        }
        assert(-16777216 <= c.y <= 16777216) by {
            vstd::arithmetic::div_mod::lemma_div_is_ordered(player_pos.y as int, i32::MAX as int, 128);
            vstd::arithmetic::div_mod::lemma_div_is_ordered(i32::MIN as int, player_pos.y as int, 128);
        }
        lemma_adjacent_one(c);
    }
    let mut chunks_to_load = get_adjacent_chunk_positions(chunk_coordinate, 1);
    let ghost all = chunks_to_load@;
    let mut despawn: Vec<usize> = Vec::new();
    let mut j: usize = 0;
    proof {
        assert(despawned_positions(spawned@, despawn@) =~= Seq::<IVec2>::empty());
        lemma_without_none(all);
        assert(spawned@.take(0) =~= Seq::<IVec2>::empty());
    }
    while j < spawned.len()
        invariant
            j <= spawned@.len(),
            chunk_coordinate == c,
            all == adjacent_positions(c, 1),
            all.no_duplicates(),
            forall|p: IVec2| all.contains(p) ==> max_int(abs_int(c.x - p.x), abs_int(c.y - p.y)) <= 1,
            forall|p: IVec2| max_int(abs_int(c.x - p.x), abs_int(c.y - p.y)) <= 1 ==> all.contains(p),
            chunks_to_load@.no_duplicates(),
            chunks_to_load@ == without(all, spawned@.take(j as int)),
            forall|p: IVec2| #[trigger] chunks_to_load@.contains(p) <==> (all.contains(p) && !spawned@.take(j as int).contains(p)),
            forall|k: int| 0 <= k < despawn@.len() ==> #[trigger] despawn@[k] < j,
            forall|k: int, q: int| 0 <= k < q < despawn@.len() ==> despawn@[k] < despawn@[q],
            forall|q: int| 0 <= q < j ==>
                (despawn@.contains(q as usize) <==> max_int(abs_int(c.x - spawned@[q].x), abs_int(c.y - spawned@[q].y)) > 2),
            loaded_chunks@ == remove_each(old(loaded_chunks)@, despawned_positions(spawned@, despawn@)),
        decreases spawned@.len() - j,
    {
        let chunk_position = spawned[j];
        let ghost d0 = despawn@;
        proof {
            assert(spawned@.take(j + 1) =~= spawned@.take(j as int).push(chunk_position));
            lemma_push_contains(spawned@.take(j as int), chunk_position);
            lemma_without_push(all, spawned@.take(j as int), chunk_position);
        }
        let ghost ctl0 = chunks_to_load@;
        match position_of(&chunks_to_load, chunk_position) {
            Some(idx) => {
                proof {
                    lemma_remove_at_first(chunks_to_load@, chunk_position, idx as int);
                    lemma_remove_distinct(chunks_to_load@, idx as int);
                    assert(chunks_to_load@.contains(chunk_position));
                    assert(all.contains(chunk_position));
                }
                chunks_to_load.remove(idx);
                proof {
                    assert(!despawn@.contains(j as usize));
                }
            },
            None => {
                proof {
                    lemma_remove_absent(chunks_to_load@, chunk_position);
                }
                if chunk_coordinate.chebyshev_distance(chunk_position) > 2 {
                    let ghost before = loaded_chunks@;
                    match position_of(loaded_chunks, chunk_position) {
                        Some(idx) => {
                            proof {
                                lemma_remove_at_first(before, chunk_position, idx as int);
                            }
                            loaded_chunks.remove(idx);
                        },
                        None => {
                            proof {
                                lemma_remove_absent(before, chunk_position);
                            }
                        },
                    }
                    despawn.push(j);
                    proof {
                        assert(despawned_positions(spawned@, despawn@).drop_last() =~= despawned_positions(spawned@, d0));
                        assert(despawn@.contains(j as usize)) by {
                            assert(despawn@[despawn@.len() - 1] == j);
                        }
                        assert forall|q: int| 0 <= q < j implies
                            (#[trigger] despawn@.contains(q as usize) <==> d0.contains(q as usize)) by {
                            if despawn@.contains(q as usize) {
                                let k = choose|k: int| 0 <= k < despawn@.len() && despawn@[k] == q as usize;
                                if k < d0.len() { assert(d0[k] == q as usize); }
                            }
                            if d0.contains(q as usize) {
                                let k = choose|k: int| 0 <= k < d0.len() && d0[k] == q as usize;
                                assert(despawn@[k] == q as usize);
                            }
                        }
                    }
                } else {
                    proof {
                        assert(!despawn@.contains(j as usize));
                    }
                }
            },
        }
        proof {
            assert forall|p: IVec2| #[trigger] chunks_to_load@.contains(p) <==> (all.contains(p) && !spawned@.take(j + 1).contains(p)) by {
                assert(spawned@.take(j + 1) == spawned@.take(j as int).push(chunk_position));
                assert(spawned@.take(j + 1).contains(p) == spawned@.take(j as int).push(chunk_position).contains(p));
                assert(spawned@.take(j as int).push(chunk_position).contains(p) <==> (spawned@.take(j as int).contains(p) || p == chunk_position));
                assert(ctl0.contains(p) <==> (all.contains(p) && !spawned@.take(j as int).contains(p)));
                if p == chunk_position {
                    assert(!chunks_to_load@.contains(p));
                } else {
                    assert(chunks_to_load@.contains(p) == ctl0.contains(p));
                }
            }
        }
        j += 1;
    }
    proof {
        assert(spawned@.take(j as int) =~= spawned@);
    }
    let ghost base = loaded_chunks@;
    let mut spawn: Vec<IVec2> = Vec::new();
    let mut k: usize = 0;
    while k < chunks_to_load.len()
        invariant
            k <= chunks_to_load@.len(),
            spawn@ == chunks_to_load@.take(k as int),
            loaded_chunks@ == base + chunks_to_load@.take(k as int),
        decreases chunks_to_load@.len() - k,
    {
        loaded_chunks.push(chunks_to_load[k]);
        spawn.push(chunks_to_load[k]);
        k += 1;
        proof {
            assert(spawn@ =~= chunks_to_load@.take(k as int));
            assert(loaded_chunks@ =~= base + chunks_to_load@.take(k as int));
        }
    }
    proof {
        assert(chunks_to_load@.take(k as int) =~= chunks_to_load@);
    }
    ChunkLoadPlan { despawn, spawn }
}

/// The tile of the test map `m` at world position `(x, y)`.
pub open spec fn world_tile(m: Seq<TileType>, x: int, y: int) -> TileType {
    m[y * MAP_SIZE_X + x]
}

/// `(x, y)` lies on the outer edge of the test map.
pub open spec fn on_map_edge(x: int, y: int) -> bool {
    x == 0 || x == MAP_SIZE_X - 1 || y == 0 || y == MAP_SIZE_Y - 1
}

/// `(x, y)` lies on the test map.
pub open spec fn on_map(x: int, y: int) -> bool {
    0 <= x < MAP_SIZE_X && 0 <= y < MAP_SIZE_Y
}

/// A test map: a full grid whose edge is wall and whose tile at (40, 25) is floor.
pub open spec fn test_map_ok(m: Seq<TileType>) -> bool {
    &&& m.len() == MAP_SIZE_X * MAP_SIZE_Y
    &&& forall|x: int, y: int| on_map(x, y) && on_map_edge(x, y) ==> #[trigger] world_tile(m, x, y) == TileType::Wall
    &&& world_tile(m, 40, 25) == TileType::Floor
}

/// Every tile of the test map `m` is a wall or a floor.
pub open spec fn walls_and_floors(m: Seq<TileType>) -> bool {
    forall|k: int| 0 <= k < m.len() ==> #[trigger] m[k] == TileType::Wall || m[k] == TileType::Floor
}

/// The tiles inside the edge of the test map `m` that are walls.
pub open spec fn inner_walls(m: Seq<TileType>) -> Set<(int, int)> {
    Set::new(|p: (int, int)| on_map(p.0, p.1) && !on_map_edge(p.0, p.1) && world_tile(m, p.0, p.1) == TileType::Wall)
}

/// A test map with at most 400 walls inside its edge, all its other tiles
/// inside the edge being floor.
pub open spec fn test_map_sparse(m: Seq<TileType>) -> bool {
    &&& test_map_ok(m)
    &&& walls_and_floors(m)
    &&& inner_walls(m).finite()
    &&& inner_walls(m).len() <= 400
}

/// Lays out the test map: floor everywhere, walls around the edge, and 400
/// random walls inside, never on (40, 25).
fn dummy_map(rng: &mut chacha20::ChaCha8Rng) -> (map: Vec<TileType>)
    ensures
        test_map_sparse(map@),
{
    let total: usize = (MAP_SIZE_X * MAP_SIZE_Y) as usize;
    let mut map: Vec<TileType> = Vec::new();
    while map.len() < total
        invariant
            total == MAP_SIZE_X * MAP_SIZE_Y,
            map@.len() <= total,
            forall|i: int| 0 <= i < map@.len() ==> map@[i] == TileType::Floor,
        decreases total - map@.len(),
    {
        map.push(TileType::Floor);
    }

    // Make the boundaries walls
    let mut x: i32 = 0;
    while x < MAP_SIZE_X
        invariant
            0 <= x <= MAP_SIZE_X,
            map@.len() == MAP_SIZE_X * MAP_SIZE_Y,
            forall|x2: int, y2: int| on_map(x2, y2) && (y2 == 0 || y2 == MAP_SIZE_Y - 1) && x2 < x
                ==> #[trigger] world_tile(map@, x2, y2) == TileType::Wall,
            forall|x2: int, y2: int| on_map(x2, y2) && !((y2 == 0 || y2 == MAP_SIZE_Y - 1) && x2 < x)
                ==> #[trigger] world_tile(map@, x2, y2) == TileType::Floor,
            walls_and_floors(map@),
        decreases MAP_SIZE_X - x,
    {
        let ghost m0 = map@;
        map.set(xy_idx(x, 0, MAP_SIZE_X as usize), TileType::Wall);
        map.set(xy_idx(x, MAP_SIZE_Y - 1, MAP_SIZE_X as usize), TileType::Wall);
        proof {
            assert forall|x2: int, y2: int| on_map(x2, y2) implies
                (#[trigger] world_tile(map@, x2, y2) == if (y2 == 0 || y2 == MAP_SIZE_Y - 1) && x2 == x { TileType::Wall } else { world_tile(m0, x2, y2) }) by {
                let k = y2 * MAP_SIZE_X + x2;
                if !((y2 == 0 || y2 == MAP_SIZE_Y - 1) && x2 == x) {
                    assert(k != x);
                    assert(k != (MAP_SIZE_Y - 1) * MAP_SIZE_X + x);
                }
            }
        }
        x += 1;
    }
    let mut y: i32 = 0;
    while y < MAP_SIZE_Y
        invariant
            0 <= y <= MAP_SIZE_Y,
            map@.len() == MAP_SIZE_X * MAP_SIZE_Y,
            forall|x2: int, y2: int| on_map(x2, y2) && ((y2 == 0 || y2 == MAP_SIZE_Y - 1) || ((x2 == 0 || x2 == MAP_SIZE_X - 1) && y2 < y))
                ==> #[trigger] world_tile(map@, x2, y2) == TileType::Wall,
            forall|x2: int, y2: int| on_map(x2, y2) && !((y2 == 0 || y2 == MAP_SIZE_Y - 1) || ((x2 == 0 || x2 == MAP_SIZE_X - 1) && y2 < y))
                ==> #[trigger] world_tile(map@, x2, y2) == TileType::Floor,
            walls_and_floors(map@),
        decreases MAP_SIZE_Y - y,
    {
        let ghost m0 = map@;
        map.set(xy_idx(0, y, MAP_SIZE_X as usize), TileType::Wall);
        map.set(xy_idx(MAP_SIZE_X - 1, y, MAP_SIZE_X as usize), TileType::Wall);
        proof {
            assert forall|x2: int, y2: int| on_map(x2, y2) implies
                (#[trigger] world_tile(map@, x2, y2) == if (x2 == 0 || x2 == MAP_SIZE_X - 1) && y2 == y { TileType::Wall } else { world_tile(m0, x2, y2) }) by {
                let k = y2 * MAP_SIZE_X + x2;
                if !((x2 == 0 || x2 == MAP_SIZE_X - 1) && y2 == y) {
                    assert(k != y * MAP_SIZE_X);
                    assert(k != y * MAP_SIZE_X + (MAP_SIZE_X - 1));
                }
            }
        }
        y += 1;
    }

    // Now we'll randomly splat 400 walls. It won't be pretty, but it's a decent illustration.
    let ghost mut splatted: Set<(int, int)> = Set::empty();
    proof {
        assert(inner_walls(map@) =~= Set::empty());
    }
    let mut i: i32 = 0;
    while i < 400
        invariant
            0 <= i <= 400,
            test_map_ok(map@),
            walls_and_floors(map@),
            splatted.finite(),
            splatted.len() <= i,
            inner_walls(map@).subset_of(splatted),
        decreases 400 - i,
    {
        let x = random_range(rng, 1, MAP_SIZE_X - 1);
        let y = random_range(rng, 1, MAP_SIZE_Y - 1);
        let idx = xy_idx(x, y, MAP_SIZE_X as usize);
        if idx != xy_idx(40, 25, MAP_SIZE_X as usize) {
            let ghost m0 = map@;
            map.set(idx, TileType::Wall);
            proof {
                assert forall|x2: int, y2: int| on_map(x2, y2) && on_map_edge(x2, y2)
                    implies #[trigger] world_tile(map@, x2, y2) == TileType::Wall by {
                    let k = y2 * MAP_SIZE_X + x2;
                    if k != idx {
                        assert(world_tile(m0, x2, y2) == TileType::Wall);
                    }
                }
                assert(world_tile(m0, 40, 25) == TileType::Floor);
                assert(world_tile(map@, 40, 25) == TileType::Floor);
                assert forall|k: int| 0 <= k < map@.len() implies #[trigger] map@[k] == TileType::Wall || map@[k] == TileType::Floor by {
                    if k != idx {
                        assert(m0[k] == TileType::Wall || m0[k] == TileType::Floor);
                    }
                }
                let s1 = splatted.insert((x as int, y as int));
                assert forall|p: (int, int)| #[trigger] inner_walls(map@).contains(p) implies s1.contains(p) by {
                    let k = p.1 * MAP_SIZE_X + p.0;
                    if k != idx {
                        assert(inner_walls(m0).contains(p));
                    } else {
                        assert(p.1 == y as int && p.0 == x as int);
                    }
                }
                splatted = s1;
            }
        }
        i += 1;
    }
    proof {
        vstd::set_lib::lemma_len_subset(inner_walls(map@), splatted);
    }
    map
}

/// `tiles` are the tiles of chunk `c` of the test map `m`, row by row.
pub open spec fn chunk_tiles_ok(m: Seq<TileType>, c: IVec2, tiles: Seq<TileType>) -> bool {
    &&& tiles.len() == CHUNK_SIZE * CHUNK_SIZE
    &&& forall|k: int| 0 <= k < CHUNK_SIZE * CHUNK_SIZE ==>
        #[trigger] tiles[k] == world_tile(m, c.x * CHUNK_SIZE + k % (CHUNK_SIZE as int), c.y * CHUNK_SIZE + k / (CHUNK_SIZE as int))
}

/// The tiles of chunk `(chunk_x, chunk_y)` of the test map, row by row.
fn chunk_tiles(map: &Vec<TileType>, chunk_x: i32, chunk_y: i32) -> (tiles: Vec<TileType>)
    requires
        0 <= chunk_x < 4,
        0 <= chunk_y < 4,
        map@.len() == MAP_SIZE_X * MAP_SIZE_Y,
    ensures
        chunk_tiles_ok(map@, IVec2 { x: chunk_x, y: chunk_y }, tiles@),
{
    let mut tiles_in_chunk: Vec<TileType> = Vec::new();
    let mut curr_y: i32 = 0;
    while curr_y < CHUNK_SIZE
        invariant
            0 <= chunk_x < 4,
            0 <= chunk_y < 4,
            map@.len() == MAP_SIZE_X * MAP_SIZE_Y,
            0 <= curr_y <= CHUNK_SIZE,
            tiles_in_chunk@.len() == curr_y * CHUNK_SIZE,
            forall|k: int| 0 <= k < tiles_in_chunk@.len() ==>
                #[trigger] tiles_in_chunk@[k] == world_tile(map@, chunk_x * CHUNK_SIZE + k % (CHUNK_SIZE as int), chunk_y * CHUNK_SIZE + k / (CHUNK_SIZE as int)),
        decreases CHUNK_SIZE - curr_y,
    {
        let mut curr_x: i32 = 0;
        while curr_x < CHUNK_SIZE
            invariant
                0 <= chunk_x < 4,
                0 <= chunk_y < 4,
                map@.len() == MAP_SIZE_X * MAP_SIZE_Y,
                0 <= curr_y < CHUNK_SIZE,
                0 <= curr_x <= CHUNK_SIZE,
                tiles_in_chunk@.len() == curr_y * CHUNK_SIZE + curr_x,
                forall|k: int| 0 <= k < tiles_in_chunk@.len() ==>
                    #[trigger] tiles_in_chunk@[k] == world_tile(map@, chunk_x * CHUNK_SIZE + k % (CHUNK_SIZE as int), chunk_y * CHUNK_SIZE + k / (CHUNK_SIZE as int)),
            decreases CHUNK_SIZE - curr_x,
        {
            let world_x = (chunk_x * CHUNK_SIZE) + curr_x;
            let world_y = (chunk_y * CHUNK_SIZE) + curr_y;
            let idx = (world_y * MAP_SIZE_X) + world_x;
            proof {
                let k = curr_y * CHUNK_SIZE + curr_x;
                vstd::arithmetic::div_mod::lemma_fundamental_div_mod_converse(k, CHUNK_SIZE as int, curr_y as int, curr_x as int);
            }
            tiles_in_chunk.push(map[idx as usize]);
            curr_x += 1;
        }
        curr_y += 1;
    }
    tiles_in_chunk
}

/// The 4 x 4 chunks of a 512 x 512 test map: floor with walls around the
/// edge and 400 random walls inside, never on (40, 25).
fn dummy_chunk_data(rng: &mut chacha20::ChaCha8Rng) -> (chunks: ChunkDataMap)
    ensures
        exists|m: Seq<TileType>| test_map_sparse(m) && forall|c: IVec2| #[trigger] chunk_data_map(chunks).contains_key(c)
            ==> chunk_tiles_ok(m, c, chunk_data_map(chunks)[c].tiles@),
        forall|c: IVec2| chunk_data_map(chunks).contains_key(c) <==> (0 <= c.x < 4 && 0 <= c.y < 4),
        forall|c: IVec2| #[trigger] chunk_data_map(chunks).contains_key(c) ==>
            chunk_data_map(chunks)[c].tiles@.len() == CHUNK_SIZE * CHUNK_SIZE,
        forall|c: IVec2, lx: int, ly: int| #[trigger] chunk_data_map(chunks).contains_key(c) && 0 <= lx < CHUNK_SIZE && 0 <= ly < CHUNK_SIZE ==> {
            let wx = c.x * CHUNK_SIZE + lx;
            let wy = c.y * CHUNK_SIZE + ly;
            let t = #[trigger] chunk_data_map(chunks)[c].tiles@[ly * CHUNK_SIZE + lx];
            &&& on_map_edge(wx, wy) ==> t == TileType::Wall
            &&& (wx == 40 && wy == 25) ==> t == TileType::Floor
        },
{
    let map = dummy_map(rng);
    let mut chunks = chunk_data_map_new();
    let mut chunk_x: i32 = 0;
    while chunk_x < MAP_SIZE_X / CHUNK_SIZE
        invariant
            0 <= chunk_x <= 4,
            test_map_ok(map@),
            test_map_sparse(map@),
            forall|c: IVec2| chunk_data_map(chunks).contains_key(c) <==> (0 <= c.x < chunk_x && 0 <= c.y < 4),
            forall|c: IVec2| #[trigger] chunk_data_map(chunks).contains_key(c) ==>
                chunk_tiles_ok(map@, c, chunk_data_map(chunks)[c].tiles@),
        decreases 4 - chunk_x,
    {
        let mut chunk_y: i32 = 0;
        while chunk_y < MAP_SIZE_Y / CHUNK_SIZE
            invariant
                0 <= chunk_x < 4,
                0 <= chunk_y <= 4,
                test_map_ok(map@),
                test_map_sparse(map@),
                forall|c: IVec2| chunk_data_map(chunks).contains_key(c) <==>
                    ((0 <= c.x < chunk_x && 0 <= c.y < 4) || (c.x == chunk_x && 0 <= c.y < chunk_y)),
                forall|c: IVec2| #[trigger] chunk_data_map(chunks).contains_key(c) ==>
                    chunk_tiles_ok(map@, c, chunk_data_map(chunks)[c].tiles@),
            decreases 4 - chunk_y,
        {
            let tiles_in_chunk = chunk_tiles(&map, chunk_x, chunk_y);
            let chunk_data = ChunkData { tiles: tiles_in_chunk };
            chunk_data_map_insert(&mut chunks, IVec2 { x: chunk_x, y: chunk_y }, chunk_data);
            chunk_y += 1;
        }
        chunk_x += 1;
    }
    proof {
        assert forall|c: IVec2, lx: int, ly: int| #[trigger] chunk_data_map(chunks).contains_key(c) && 0 <= lx < CHUNK_SIZE && 0 <= ly < CHUNK_SIZE implies {
            let wx = c.x * CHUNK_SIZE + lx;
            let wy = c.y * CHUNK_SIZE + ly;
            let t = #[trigger] chunk_data_map(chunks)[c].tiles@[ly * CHUNK_SIZE + lx];
            &&& on_map_edge(wx, wy) ==> t == TileType::Wall
            &&& (wx == 40 && wy == 25) ==> t == TileType::Floor
        } by {
            let k = ly * CHUNK_SIZE + lx;
            vstd::arithmetic::div_mod::lemma_fundamental_div_mod_converse(k, CHUNK_SIZE as int, ly, lx);
            assert(chunk_tiles_ok(map@, c, chunk_data_map(chunks)[c].tiles@));
            assert(0 <= k < CHUNK_SIZE * CHUNK_SIZE);
            assert(chunk_data_map(chunks)[c].tiles@[k] == world_tile(map@, c.x * CHUNK_SIZE + lx, c.y * CHUNK_SIZE + ly));
            assert(on_map(c.x * CHUNK_SIZE + lx, c.y * CHUNK_SIZE + ly));
        }
    }
    chunks
}

/// `data` holds the render tiles of every chunk of the overmap `m`, under the
/// chunk's coordinates, and of no other chunk.
pub open spec fn renders_overmap(
    data: Map<IVec2, ChunkData>,
    m: Map<crate::map::overmap_generator::OvermapChunkCoords, OvermapChunk>,
) -> bool {
    &&& forall|c: IVec2| #[trigger] data.contains_key(c)
        <==> m.contains_key(crate::map::overmap_generator::OvermapChunkCoords(c))
    &&& forall|c: IVec2| #[trigger] data.contains_key(c) ==> {
        let tiles = m[crate::map::overmap_generator::OvermapChunkCoords(c)].overmap_tiles@;
        &&& data[c].tiles@.len() == tiles.len()
        &&& forall|i: int| 0 <= i < tiles.len() ==> #[trigger] data[c].tiles@[i] == tile_type_of(tiles[i])
    }
}

/// Fills `map_data` with the renderable tile data of the roads-only overmap generated
/// around chunk (0, 0) from the fixed seed 1234: one entry for each of the
/// 5 x 5 chunks, each a full chunk of tiles. `stop_probability` is handed to
/// the generator; the loaded chunks are left as they are.
pub fn generate_chunk_data<F: Fn(u32, i32) -> i32>(map_data: &mut MapData, stop_probability: &F)
    requires
        forall|d: u32, s: i32| stop_probability.requires((d, s)),
    ensures
        final(map_data).loaded_chunks@ == old(map_data).loaded_chunks@,
        forall|c: IVec2| #[trigger] chunk_data_map(final(map_data).chunk_data).contains_key(c)
            <==> (-2 <= c.x <= 2 && -2 <= c.y <= 2),
        forall|c: IVec2| #[trigger] chunk_data_map(final(map_data).chunk_data).contains_key(c) ==>
            chunk_data_map(final(map_data).chunk_data)[c].tiles@.len() == OVERMAP_CHUNK_TILES,
        exists|m: Map<crate::map::overmap_generator::OvermapChunkCoords, OvermapChunk>| {
            &&& map_wf(m)
            &&& connected_around(m, IVec2 { x: 0, y: 0 })
            &&& links_have_roads(m)
            &&& renders_overmap(chunk_data_map(final(map_data).chunk_data), m)
        },
{
    let mut game_map = GameMap { overmap_chunks: chunk_map_new() };
    let mut rng = seeded_rng(1234);
    proof {
        assert(map_wf(chunk_map(game_map.overmap_chunks)));
        assert(links_have_roads(chunk_map(game_map.overmap_chunks)));
        assert(centre_ok(IVec2 { x: 0, y: 0 }));
    }
    generate_overmap_chunk(&mut game_map, IVec2 { x: 0, y: 0 }, &mut rng, stop_probability);
    let ghost m = chunk_map(game_map.overmap_chunks);
    proof {
        assert forall|k: crate::map::overmap_generator::OvermapChunkCoords| #[trigger] m.contains_key(k)
            <==> (-2 <= k.0.x <= 2 && -2 <= k.0.y <= 2) by {
            if -2 <= k.0.x <= 2 && -2 <= k.0.y <= 2 {
                assert(crate::map::overmap_generator::chunk_in_box(k,
                    crate::map::overmap_generator::square_lo(crate::map::overmap_generator::chunk_at(IVec2 { x: 0, y: 0 }), 2),
                    crate::map::overmap_generator::square_hi(crate::map::overmap_generator::chunk_at(IVec2 { x: 0, y: 0 }), 2)));
            }
        }
    }
    let keys = chunk_map_keys(&game_map.overmap_chunks);
    let mut map_to_chunk_data = chunk_data_map_new();
    let mut j: usize = 0;
    while j < keys.len()
        invariant
            j <= keys@.len(),
            m == chunk_map(game_map.overmap_chunks),
            map_wf(m),
            keys@.no_duplicates(),
            forall|k: crate::map::overmap_generator::OvermapChunkCoords| keys@.contains(k) <==> m.contains_key(k),
            forall|k: crate::map::overmap_generator::OvermapChunkCoords| #[trigger] m.contains_key(k)
                <==> (-2 <= k.0.x <= 2 && -2 <= k.0.y <= 2),
            forall|c: IVec2| #[trigger] chunk_data_map(map_to_chunk_data).contains_key(c)
                <==> exists|q: int| 0 <= q < j && keys@[q].0 == c,
            forall|c: IVec2| #[trigger] chunk_data_map(map_to_chunk_data).contains_key(c) ==>
                chunk_data_map(map_to_chunk_data)[c].tiles@.len() == OVERMAP_CHUNK_TILES,
            forall|c: IVec2| #[trigger] chunk_data_map(map_to_chunk_data).contains_key(c) ==> {
                let tiles = m[crate::map::overmap_generator::OvermapChunkCoords(c)].overmap_tiles@;
                &&& m.contains_key(crate::map::overmap_generator::OvermapChunkCoords(c))
                &&& chunk_data_map(map_to_chunk_data)[c].tiles@.len() == tiles.len()
                &&& forall|i: int| 0 <= i < tiles.len() ==>
                    #[trigger] chunk_data_map(map_to_chunk_data)[c].tiles@[i] == tile_type_of(tiles[i])
            },
        decreases keys@.len() - j,
    {
        let key = keys[j];
        proof {
            assert(keys@.contains(key));
        }
        match chunk_map_get(&game_map.overmap_chunks, &key) {
            Some(chunk) => {
                proof {
                    assert(chunk_wf(key, *chunk));
                }
                let (coordinates, chunk_data) = overmap_tiles_to_chunk_data(chunk);
                let ghost before = chunk_data_map(map_to_chunk_data);
                chunk_data_map_insert(&mut map_to_chunk_data, coordinates, chunk_data);
                proof {
                    assert(crate::map::overmap_generator::OvermapChunkCoords(coordinates) == key);
                    assert forall|c: IVec2| #[trigger] chunk_data_map(map_to_chunk_data).contains_key(c) implies {
                        let tiles = m[crate::map::overmap_generator::OvermapChunkCoords(c)].overmap_tiles@;
                        &&& m.contains_key(crate::map::overmap_generator::OvermapChunkCoords(c))
                        &&& chunk_data_map(map_to_chunk_data)[c].tiles@.len() == tiles.len()
                        &&& forall|i: int| 0 <= i < tiles.len() ==>
                            #[trigger] chunk_data_map(map_to_chunk_data)[c].tiles@[i] == tile_type_of(tiles[i])
                    } by {
                        if c != coordinates {
                            assert(before.contains_key(c));
                        }
                    }
                    assert forall|c: IVec2| #[trigger] chunk_data_map(map_to_chunk_data).contains_key(c)
                        <==> exists|q: int| 0 <= q < j + 1 && keys@[q].0 == c by {
                        if c == coordinates {
                            assert(keys@[j as int].0 == c);
                        }
                    }
                }
            },
            None => {
                proof {
                    assert(false);
                }
            },
        }
        j += 1;
    }
    proof {
        assert forall|c: IVec2| #[trigger] chunk_data_map(map_to_chunk_data).contains_key(c)
            <==> (-2 <= c.x <= 2 && -2 <= c.y <= 2) by {
            if -2 <= c.x <= 2 && -2 <= c.y <= 2 {
                let k = crate::map::overmap_generator::OvermapChunkCoords(c);
                assert(m.contains_key(k));
                assert(keys@.contains(k));
                let q = choose|q: int| 0 <= q < keys@.len() && keys@[q] == k;
                assert(keys@[q].0 == c);
            }
            if chunk_data_map(map_to_chunk_data).contains_key(c) {
                let q = choose|q: int| 0 <= q < j && keys@[q].0 == c;
                assert(keys@.contains(keys@[q]));
                assert(m.contains_key(keys@[q]));
            }
        }
    }
    proof {
        assert(renders_overmap(chunk_data_map(map_to_chunk_data), m));
    }
    map_data.chunk_data = map_to_chunk_data;
}

} // verus!
