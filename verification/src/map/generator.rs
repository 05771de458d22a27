//! The roads-only overmap generator: every other chunk gets a city of size
//! 128, neighbouring cities are joined by roads with straight ends of at most
//! 32 tiles, and each city grows a street network but no houses.
//!
//! The chunk, city and road builder types are those of the overmap
//! generator; what differs lives here.
use vstd::prelude::*;
use crate::ivec::{IVec2, abs_int, sign_int};
use crate::map::chunk_cursor::{ChunkCursor, cell_of, global_of, lemma_unit_step_x, lemma_unit_step_y};
use crate::map::overmap_generator::{
    lemma_cursor_cell, local_in_chunk,
    Layout, OVERMAP_CHUNK_SIZE, along, box_present, centre_ok, chunk_at, chunk_in_box, chunks_hi, chunks_lo, city_wf, connected_around, coord_within, draw_road_between,
    generate_with_layout, global_in_box, global_position, lay_road_under, lemma_between_in_box,
    lemma_cursor_in_box, lemma_only_tiles_change_trans, lemma_same_global_same_cell,
    lemma_tiles_grow_trans, map_wf, only_tiles_change, road_direction, road_drawable_between,
    square_hi, square_lo, tile_at, tile_index, tiles_grow, old_cities_kept, new_chunks_one_city,
    roads_begun_around, far_chunks_kept, exit_road_laid, quiet_near_centre, streets_reach_three_around, links_returned, new_links_beside, road_walked, links_unique, changes_inside,
};
use crate::map::roads::{
    changes_within, houses_on_cities, houses_only_at, lemma_changes_compose, lemma_changes_none,
    lemma_changes_push, lemma_houses_at_ends, lemma_on_path_last, lemma_on_path_prefix,
    lemma_road_path_grows, lemma_road_path_push, lemma_roads_laid_lay, links_have_roads, only_roads_laid,
    path_between, road_laid, road_path, roads_join,
};
use crate::outside::{random_range, chunk_map, city_map, city_map_insert, ChunkMap};
pub use crate::map::overmap_generator::{
    Building, City, CityId, GameMap, OvermapChunk, OvermapChunkCoords, OvermapTileType, RoadBuilder,
};

verus! {

/// Size of every city of the roads-only layout.
pub const CITY_SIZE: i32 = 128;

/// Longest straight exit and entrance road of a connecting road, in tiles.
pub const STRAIGHT_ROAD_CAP: i32 = 32;

/// With chance one in two, gives the chunk a city of size 128 at a random
/// position, stored under id 0 with no connections yet.
pub fn add_cities_to_chunk(overmap_chunk: &mut OvermapChunk, rng: &mut chacha20::ChaCha8Rng)
    ensures
        final(overmap_chunk).coordinates == old(overmap_chunk).coordinates,
        final(overmap_chunk).overmap_tiles == old(overmap_chunk).overmap_tiles,
        final(overmap_chunk).generation_complete == old(overmap_chunk).generation_complete,
        city_map(final(overmap_chunk).cities) == city_map(old(overmap_chunk).cities)
            || ({
                let c = city_map(final(overmap_chunk).cities)[CityId(0)];
                &&& city_map(final(overmap_chunk).cities) == city_map(old(overmap_chunk).cities).insert(CityId(0), c)
                &&& city_wf(old(overmap_chunk).coordinates, CityId(0), c)
                &&& c.size == CITY_SIZE
                &&& c.connected_to@.len() == 0
            }),
{
    let roll = random_range(rng, 0, 2);
    if roll == 1 {
        // Add a city somewhere
        let new_city_position = IVec2 {
            x: random_range(rng, 0, OVERMAP_CHUNK_SIZE),
            y: random_range(rng, 0, OVERMAP_CHUNK_SIZE),
        };
        settle_city(overmap_chunk, roll, new_city_position);
    }
}

/// Settles the chunk after its city coin flip: when `roll` is 1, a city of id
/// 0 at `position` of size 128, connected to nothing yet, is stored in the
/// chunk (replacing any city of id 0); otherwise the chunk is left as it is.
pub fn settle_city(overmap_chunk: &mut OvermapChunk, roll: i32, position: IVec2)
    ensures
        final(overmap_chunk).coordinates == old(overmap_chunk).coordinates,
        final(overmap_chunk).overmap_tiles == old(overmap_chunk).overmap_tiles,
        final(overmap_chunk).generation_complete == old(overmap_chunk).generation_complete,
        roll != 1 ==> city_map(final(overmap_chunk).cities) == city_map(old(overmap_chunk).cities),
        roll == 1 ==> {
            let c = city_map(final(overmap_chunk).cities)[CityId(0)];
            &&& city_map(final(overmap_chunk).cities) == city_map(old(overmap_chunk).cities).insert(CityId(0), c)
            &&& c.id == CityId(0)
            &&& c.position == position
            &&& c.overmap_chunk_coordinate == old(overmap_chunk).coordinates
            &&& c.size == CITY_SIZE
            &&& c.connected_to@.len() == 0
        },
{
    if roll == 1 {
        let city = City {
            id: CityId(0),
            position,
            overmap_chunk_coordinate: overmap_chunk.coordinates,
            size: CITY_SIZE,
            connected_to: Vec::new(),
        };
        city_map_insert(&mut overmap_chunk.cities, CityId(0), city);
    }
}

/// Draws a road from `start_city_pos` in `start_city_chunk` to `end_city_pos`
/// in `end_city_chunk`: a house at the start, a straight exit road of at most
/// 32 tiles along the longer axis (only when heading in the positive
/// direction), random monotone walks to the entrance road (at most 32 tiles
/// short of the end) and on to the end, and a house at the end. Existing
/// houses are never overwritten.
pub fn insert_road_tiles_between_cities(
    overmap_chunks: &mut ChunkMap,
    start_city_pos: IVec2,
    start_city_chunk: OvermapChunkCoords,
    end_city_pos: IVec2,
    end_city_chunk: OvermapChunkCoords,
    rng: &mut chacha20::ChaCha8Rng,
)
    requires
        map_wf(chunk_map(*old(overmap_chunks))),
        road_drawable_between(chunk_map(*old(overmap_chunks)), start_city_chunk, start_city_pos, end_city_chunk, end_city_pos),
    ensures
        map_wf(chunk_map(*final(overmap_chunks))),
        tiles_grow(chunk_map(*old(overmap_chunks)), chunk_map(*final(overmap_chunks))),
        only_tiles_change(chunk_map(*old(overmap_chunks)), chunk_map(*final(overmap_chunks))),
        tile_at(chunk_map(*final(overmap_chunks)), start_city_chunk, start_city_pos) == Some(OvermapTileType::House),
        tile_at(chunk_map(*final(overmap_chunks)), end_city_chunk, end_city_pos) == Some(OvermapTileType::House),
        roads_join(chunk_map(*final(overmap_chunks)), start_city_chunk, start_city_pos, end_city_chunk, end_city_pos),
        road_laid(chunk_map(*old(overmap_chunks)), chunk_map(*final(overmap_chunks)),
            start_city_chunk, start_city_pos, end_city_chunk, end_city_pos),
        houses_only_at(chunk_map(*old(overmap_chunks)), chunk_map(*final(overmap_chunks)),
            start_city_chunk, start_city_pos, end_city_chunk, end_city_pos),
        road_walked(chunk_map(*old(overmap_chunks)), chunk_map(*final(overmap_chunks)),
            start_city_chunk, start_city_pos, end_city_chunk, end_city_pos),
        changes_inside(chunk_map(*old(overmap_chunks)), chunk_map(*final(overmap_chunks)),
            chunks_lo(start_city_chunk, end_city_chunk), chunks_hi(start_city_chunk, end_city_chunk)),
        exit_road_laid(chunk_map(*final(overmap_chunks)), global_of(start_city_chunk, start_city_pos),
            global_of(end_city_chunk, end_city_pos), 32),
{
    draw_road_between(overmap_chunks, start_city_pos, start_city_chunk, end_city_pos, end_city_chunk,
        STRAIGHT_ROAD_CAP, STRAIGHT_ROAD_CAP, rng);
}

/// The `t`-th tile of the L-shaped road from the overmap-wide position `a`
/// to `b`: straight along x to `b`'s column first, then straight along y.
pub open spec fn l_point(a: (int, int), b: (int, int), t: int) -> (int, int) {
    let dx = abs_int(b.0 - a.0);
    if t <= dx {
        (a.0 + along(sign_int(b.0 - a.0), t), a.1)
    } else {
        (b.0, a.1 + along(sign_int(b.1 - a.1), t - dx))
    }
}

/// Between `a` and `b` the L-shaped road from `sp` in chunk `sc` to `ep` in
/// chunk `ec` was laid: a walk over set tiles of `b` that steps through
/// exactly the tiles of the L, one after the other, and no other tile changed.
pub open spec fn l_road_laid(
    a: Map<OvermapChunkCoords, OvermapChunk>,
    b: Map<OvermapChunkCoords, OvermapChunk>,
    sc: OvermapChunkCoords,
    sp: IVec2,
    ec: OvermapChunkCoords,
    ep: IVec2,
) -> bool {
    let s = global_of(sc, sp);
    let e = global_of(ec, ep);
    exists|path: Seq<ChunkCursor>| {
        &&& road_path(b, path)
        &&& path_between(path, sc, sp, ec, ep)
        &&& changes_within(a, b, path)
        &&& path.len() == abs_int(e.0 - s.0) + abs_int(e.1 - s.1) + 1
        &&& forall|t: int| 0 <= t < path.len() ==> (#[trigger] path[t]).global() == l_point(s, e, t)
    }
}

/// The L-shaped road from `sp` in chunk `sc` to `ep` in chunk `ec` can be
/// drawn on `m`: both ends stand inside their chunks, the chunks lie within
/// the coordinate bound, the distance between them fits an `i32`, and every
/// chunk that a tile of the L falls in exists.
pub open spec fn l_road_drawable(
    m: Map<OvermapChunkCoords, OvermapChunk>,
    sc: OvermapChunkCoords,
    sp: IVec2,
    ec: OvermapChunkCoords,
    ep: IVec2,
) -> bool {
    let s = global_of(sc, sp);
    let e = global_of(ec, ep);
    &&& local_in_chunk(sp)
    &&& local_in_chunk(ep)
    &&& coord_within(sc, 0)
    &&& coord_within(ec, 0)
    &&& abs_int(e.0 - s.0) + abs_int(e.1 - s.1) <= i32::MAX
    &&& forall|t: int| 0 <= t <= abs_int(e.0 - s.0) + abs_int(e.1 - s.1)
        ==> m.contains_key(#[trigger] cell_of(l_point(s, e, t)).0)
}

/// Draws an L-shaped road from `start_city_pos` in `start_city_chunk` to
/// `end_city_pos` in `end_city_chunk`: a house at the start, then straight
/// along x to the end's column, then straight along y to the end, and a
/// house at the end. Existing houses are never overwritten, and no other
/// tile changes.
pub fn insert_road_tiles_between_cities_old(
    overmap_chunks: &mut ChunkMap,
    start_city_pos: IVec2,
    start_city_chunk: OvermapChunkCoords,
    end_city_pos: IVec2,
    end_city_chunk: OvermapChunkCoords,
)
    requires
        map_wf(chunk_map(*old(overmap_chunks))),
        l_road_drawable(chunk_map(*old(overmap_chunks)), start_city_chunk, start_city_pos, end_city_chunk, end_city_pos),
    ensures
        map_wf(chunk_map(*final(overmap_chunks))),
        tiles_grow(chunk_map(*old(overmap_chunks)), chunk_map(*final(overmap_chunks))),
        only_tiles_change(chunk_map(*old(overmap_chunks)), chunk_map(*final(overmap_chunks))),
        tile_at(chunk_map(*final(overmap_chunks)), start_city_chunk, start_city_pos) == Some(OvermapTileType::House),
        tile_at(chunk_map(*final(overmap_chunks)), end_city_chunk, end_city_pos) == Some(OvermapTileType::House),
        roads_join(chunk_map(*final(overmap_chunks)), start_city_chunk, start_city_pos, end_city_chunk, end_city_pos),
        l_road_laid(chunk_map(*old(overmap_chunks)), chunk_map(*final(overmap_chunks)),
            start_city_chunk, start_city_pos, end_city_chunk, end_city_pos),
        houses_only_at(chunk_map(*old(overmap_chunks)), chunk_map(*final(overmap_chunks)),
            start_city_chunk, start_city_pos, end_city_chunk, end_city_pos),
{
    let ghost lo = chunks_lo(start_city_chunk, end_city_chunk);
    let ghost hi = chunks_hi(start_city_chunk, end_city_chunk);
    let ghost m0 = chunk_map(*overmap_chunks);

    let mut cursor = ChunkCursor {
        chunk_coord: start_city_chunk,
        local_pos: IVec2 { x: start_city_pos.x, y: start_city_pos.y },
    };
    let ghost start = cursor.global();
    let ghost end = global_of(end_city_chunk, end_city_pos);

    let end_global = global_position(end_city_chunk, end_city_pos);
    let distance_between_cities = global_position(start_city_chunk, start_city_pos).sub(end_global).abs();
    let direction = road_direction(start_city_chunk, start_city_pos, end_city_chunk, end_city_pos);
    let ghost dx = distance_between_cities.x as int;
    let ghost dy = distance_between_cities.y as int;
    proof {
        assert(end == (start.0 + along(direction.x as int, dx), start.1 + along(direction.y as int, dy)));
        assert(dx == abs_int(end.0 - start.0));
        assert(dy == abs_int(end.1 - start.1));
        assert(direction.x == sign_int(end.0 - start.0));
        assert(direction.y == sign_int(end.1 - start.1));
        assert(global_in_box(start, lo, hi));
        assert(global_in_box(end, lo, hi));
    }

    proof {
        assert(l_point(start, end, 0) == start);
        lemma_cursor_cell(cursor);
        assert(cell_of(start).0 == start_city_chunk);
        assert(m0.contains_key(start_city_chunk));
    }
    lay_road_under(&cursor, overmap_chunks, OvermapTileType::House, Ghost(m0), Ghost(start_city_chunk), Ghost(start_city_chunk));
    let ghost m1 = chunk_map(*overmap_chunks);
    let ghost c0 = cursor;
    let ghost mut p = seq![cursor];
    proof {
        assert(road_path(m1, p));
        lemma_changes_none(m1, p);
        assert(only_roads_laid(m1, m1));
        assert(p[0].global() == l_point(start, end, 0));
    }

    let mut t: i32 = 0;
    while t < distance_between_cities.x
        invariant
            0 <= t <= distance_between_cities.x,
            dx == distance_between_cities.x,
            dy == distance_between_cities.y,
            0 <= distance_between_cities.y,
            -1 <= direction.x <= 1,
            -1 <= direction.y <= 1,
            dx == abs_int(end.0 - start.0),
            dy == abs_int(end.1 - start.1),
            direction.x == sign_int(end.0 - start.0),
            direction.y == sign_int(end.1 - start.1),
            end == (start.0 + along(direction.x as int, dx), start.1 + along(direction.y as int, dy)),
            road_path(chunk_map(*overmap_chunks), p),
            p[0] == c0,
            c0.chunk_coord == start_city_chunk,
            c0.local_pos == start_city_pos,
            p.last() == cursor,
            p.len() == t + 1,
            forall|q: int| 0 <= q < p.len() ==> (#[trigger] p[q]).global() == l_point(start, end, q),
            changes_within(m1, chunk_map(*overmap_chunks), p),
            only_roads_laid(m1, chunk_map(*overmap_chunks)),
            cursor.placed(),
            cursor.global() == (start.0 + along(direction.x as int, t as int), start.1),
            map_wf(chunk_map(*overmap_chunks)),
            l_road_drawable(m0, start_city_chunk, start_city_pos, end_city_chunk, end_city_pos),
            start == global_of(start_city_chunk, start_city_pos),
            end == global_of(end_city_chunk, end_city_pos),
            chunk_map(*overmap_chunks).dom() == m0.dom(),
            tiles_grow(m1, chunk_map(*overmap_chunks)),
            only_tiles_change(m1, chunk_map(*overmap_chunks)),
            coord_within(lo, 0),
            coord_within(hi, 0),
            global_in_box(start, lo, hi),
            global_in_box((start.0 + along(direction.x as int, distance_between_cities.x as int),
                start.1 + along(direction.y as int, distance_between_cities.y as int)), lo, hi),
        decreases distance_between_cities.x - t,
    {
        let ghost cb = cursor;
        proof {
            lemma_cursor_in_box(cb, lo, hi);
        }
        cursor.step_x(direction.x);
        proof {
            lemma_unit_step_x(cb, direction.x);
            lemma_between_in_box(start, direction, distance_between_cities,
                IVec2 { x: (distance_between_cities.x - (t + 1)) as i32, y: distance_between_cities.y }, lo, hi);
        }
        let ghost mb = chunk_map(*overmap_chunks);
        proof {
            assert(cursor.global() == l_point(start, end, t + 1));
            lemma_cursor_cell(cursor);
            assert(cell_of(cursor.global()).0 == cursor.chunk_coord);
            assert(m0.contains_key(cell_of(l_point(start, end, t + 1)).0));
        }
        lay_road_under(&cursor, overmap_chunks, OvermapTileType::Road, Ghost(m1), Ghost(cursor.chunk_coord), Ghost(cursor.chunk_coord));
        proof {
            let ma = chunk_map(*overmap_chunks);
            lemma_road_path_grows(mb, ma, p);
            lemma_road_path_push(ma, p, cursor);
            lemma_changes_push(m1, mb, ma, p, cursor);
            lemma_roads_laid_lay(m1, mb, ma, cursor);
            p = p.push(cursor);
        }
        t += 1;
    }

    let mut t: i32 = 0;
    while t < distance_between_cities.y
        invariant
            0 <= t <= distance_between_cities.y,
            dx == distance_between_cities.x,
            dy == distance_between_cities.y,
            0 <= distance_between_cities.x,
            -1 <= direction.x <= 1,
            -1 <= direction.y <= 1,
            dx == abs_int(end.0 - start.0),
            dy == abs_int(end.1 - start.1),
            direction.x == sign_int(end.0 - start.0),
            direction.y == sign_int(end.1 - start.1),
            end == (start.0 + along(direction.x as int, dx), start.1 + along(direction.y as int, dy)),
            road_path(chunk_map(*overmap_chunks), p),
            p[0] == c0,
            c0.chunk_coord == start_city_chunk,
            c0.local_pos == start_city_pos,
            p.last() == cursor,
            p.len() == dx + t + 1,
            forall|q: int| 0 <= q < p.len() ==> (#[trigger] p[q]).global() == l_point(start, end, q),
            changes_within(m1, chunk_map(*overmap_chunks), p),
            only_roads_laid(m1, chunk_map(*overmap_chunks)),
            cursor.placed(),
            cursor.global() == (start.0 + along(direction.x as int, distance_between_cities.x as int),
                start.1 + along(direction.y as int, t as int)),
            map_wf(chunk_map(*overmap_chunks)),
            l_road_drawable(m0, start_city_chunk, start_city_pos, end_city_chunk, end_city_pos),
            start == global_of(start_city_chunk, start_city_pos),
            end == global_of(end_city_chunk, end_city_pos),
            chunk_map(*overmap_chunks).dom() == m0.dom(),
            tiles_grow(m1, chunk_map(*overmap_chunks)),
            only_tiles_change(m1, chunk_map(*overmap_chunks)),
            coord_within(lo, 0),
            coord_within(hi, 0),
            global_in_box(start, lo, hi),
            global_in_box((start.0 + along(direction.x as int, distance_between_cities.x as int),
                start.1 + along(direction.y as int, distance_between_cities.y as int)), lo, hi),
        decreases distance_between_cities.y - t,
    {
        let ghost cb = cursor;
        proof {
            lemma_cursor_in_box(cb, lo, hi);
        }
        cursor.step_y(direction.y);
        proof {
            lemma_unit_step_y(cb, direction.y);
            lemma_between_in_box(start, direction, distance_between_cities,
                IVec2 { x: 0, y: (distance_between_cities.y - (t + 1)) as i32 }, lo, hi);
        }
        let ghost mb = chunk_map(*overmap_chunks);
        proof {
            assert(cursor.global() == l_point(start, end, dx + t + 1));
            lemma_cursor_cell(cursor);
            assert(cell_of(cursor.global()).0 == cursor.chunk_coord);
            assert(m0.contains_key(cell_of(l_point(start, end, dx + t + 1)).0));
        }
        lay_road_under(&cursor, overmap_chunks, OvermapTileType::Road, Ghost(m1), Ghost(cursor.chunk_coord), Ghost(cursor.chunk_coord));
        proof {
            let ma = chunk_map(*overmap_chunks);
            lemma_road_path_grows(mb, ma, p);
            lemma_road_path_push(ma, p, cursor);
            lemma_changes_push(m1, mb, ma, p, cursor);
            lemma_roads_laid_lay(m1, mb, ma, cursor);
            p = p.push(cursor);
        }
        t += 1;
    }
    proof {
        assert(cursor.global() == end);
        let b_cursor = ChunkCursor { chunk_coord: end_city_chunk, local_pos: end_city_pos };
        lemma_same_global_same_cell(cursor, b_cursor);
    }

    let ghost m4 = chunk_map(*overmap_chunks);
    lay_road_under(&cursor, overmap_chunks, OvermapTileType::House, Ghost(m1), Ghost(end_city_chunk), Ghost(end_city_chunk));
    proof {
        let m5 = chunk_map(*overmap_chunks);
        lemma_road_path_grows(m4, m5, p);
        assert(road_path(m5, p) && path_between(p, start_city_chunk, start_city_pos, end_city_chunk, end_city_pos));
        lemma_tiles_grow_trans(m0, m1, m5);
        lemma_only_tiles_change_trans(m0, m1, m5);
        let k = start_city_chunk;
        let i = tile_index(start_city_pos);
        assert(m1.contains_key(k));
        assert(m1[k].overmap_tiles@[i] == Some(OvermapTileType::House));
        assert(m5[k].overmap_tiles@[i] == Some(OvermapTileType::House));
        lemma_tiles_grow_trans(m0, m1, m4);
        assert(p.take(1) =~= seq![c0]);
        lemma_on_path_prefix(seq![c0], p);
        lemma_changes_compose(m0, m1, m4, seq![c0], p, p);
        lemma_on_path_last(p, cursor);
        lemma_changes_compose(m0, m4, m5, p, seq![cursor], p);
        lemma_houses_at_ends(m0, m1, m4, m5, c0, cursor);
        assert(road_path(m5, p) && path_between(p, start_city_chunk, start_city_pos, end_city_chunk, end_city_pos)
            && changes_within(m0, m5, p));
    }
}

/// Generates the roads-only overmap around `current_overmap_coordinate`:
/// every missing chunk within two chunks of it is created, with a city with
/// chance one in two; the cities within one chunk of it are connected by
/// roads to the cities of their side neighbours; then those cities grow their
/// street networks. No house is built but on the tile of a city. `stop_probability` gives, for a builder's Manhattan
/// distance from its city's centre and the city's size, the percent chance
/// that it stops.
pub fn generate_overmap_chunk<F: Fn(u32, i32) -> i32>(
    game_map: &mut GameMap,
    current_overmap_coordinate: IVec2,
    rng: &mut chacha20::ChaCha8Rng,
    stop_probability: &F,
)
    requires
        forall|d: u32, s: i32| stop_probability.requires((d, s)),
        map_wf(chunk_map(old(game_map).overmap_chunks)),
        centre_ok(current_overmap_coordinate),
    ensures
        map_wf(chunk_map(final(game_map).overmap_chunks)),
        tiles_grow(chunk_map(old(game_map).overmap_chunks), chunk_map(final(game_map).overmap_chunks)),
        box_present(chunk_map(final(game_map).overmap_chunks), square_lo(chunk_at(current_overmap_coordinate), 2),
            square_hi(chunk_at(current_overmap_coordinate), 2)),
        connected_around(chunk_map(final(game_map).overmap_chunks), current_overmap_coordinate),
        links_have_roads(chunk_map(old(game_map).overmap_chunks)) ==> links_have_roads(chunk_map(final(game_map).overmap_chunks)),
        links_returned(chunk_map(old(game_map).overmap_chunks)) ==> links_returned(chunk_map(final(game_map).overmap_chunks)),
        new_links_beside(chunk_map(old(game_map).overmap_chunks), chunk_map(final(game_map).overmap_chunks)),
        links_unique(chunk_map(old(game_map).overmap_chunks)) && links_returned(chunk_map(old(game_map).overmap_chunks))
            ==> links_unique(chunk_map(final(game_map).overmap_chunks)),
        houses_on_cities(chunk_map(old(game_map).overmap_chunks), chunk_map(final(game_map).overmap_chunks)),
        forall|k: OvermapChunkCoords| #[trigger] chunk_map(final(game_map).overmap_chunks).contains_key(k)
            ==> chunk_map(old(game_map).overmap_chunks).contains_key(k)
                || chunk_in_box(k, square_lo(chunk_at(current_overmap_coordinate), 2),
                    square_hi(chunk_at(current_overmap_coordinate), 2)),
        old_cities_kept(chunk_map(old(game_map).overmap_chunks), chunk_map(final(game_map).overmap_chunks)),
        new_chunks_one_city(chunk_map(old(game_map).overmap_chunks), chunk_map(final(game_map).overmap_chunks)),
        roads_begun_around(chunk_map(final(game_map).overmap_chunks), current_overmap_coordinate),
        quiet_near_centre(stop_probability)
            ==> streets_reach_three_around(chunk_map(final(game_map).overmap_chunks), current_overmap_coordinate),
        changes_inside(chunk_map(old(game_map).overmap_chunks), chunk_map(final(game_map).overmap_chunks),
            square_lo(chunk_at(current_overmap_coordinate), 3), square_hi(chunk_at(current_overmap_coordinate), 3)),
        far_chunks_kept(chunk_map(old(game_map).overmap_chunks), chunk_map(final(game_map).overmap_chunks),
            square_lo(chunk_at(current_overmap_coordinate), 3), square_hi(chunk_at(current_overmap_coordinate), 3)),
{
    generate_with_layout(game_map, current_overmap_coordinate, rng, stop_probability, Layout::RoadsOnly);
}

} // verus!
