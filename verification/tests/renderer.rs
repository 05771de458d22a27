use roguemap::ivec::IVec2;
use roguemap::map::overmap_generator::{OvermapChunk, OvermapChunkCoords, OvermapTileType};
use roguemap::map::renderer::{
    chunk_pixel_origin, chunk_tileset_indices, div_away_from_zero, generate_chunk_data,
    get_adjacent_chunk_positions, overmap_tiles_to_chunk_data, plan_chunk_loads, tileset_index,
    MapData, TileType, CHUNK_SIZE,
};
use roguemap::outside::ChunkDataMap;

fn v(x: i32, y: i32) -> IVec2 {
    IVec2 { x, y }
}

#[test]
fn div_away_from_zero_rounds_outward() {
    assert_eq!(div_away_from_zero(7, 2), 4);
    assert_eq!(div_away_from_zero(-7, 2), -4);
    assert_eq!(div_away_from_zero(6, 3), 2);
    assert_eq!(div_away_from_zero(-6, 3), -2);
    assert_eq!(div_away_from_zero(1, 128), 1);
    assert_eq!(div_away_from_zero(-1, 128), -1);
    assert_eq!(div_away_from_zero(0, 5), 0);
    assert_eq!(div_away_from_zero(i32::MIN, 1), i32::MIN);
}

#[test]
fn div_away_from_zero_follows_the_dividend_sign() {
    assert_eq!(div_away_from_zero(7, -2), -2);
    assert_eq!(div_away_from_zero(-7, -2), 2);
    assert_eq!(div_away_from_zero(7, -7), -1);
}

#[test]
fn div_away_from_zero_is_symmetric() {
    for a in -300..300 {
        for b in [1, 2, 3, 7, 128, -5] {
            assert_eq!(div_away_from_zero(-a, b), -div_away_from_zero(a, b));
        }
    }
}

#[test]
fn adjacent_positions_column_by_column() {
    assert_eq!(
        get_adjacent_chunk_positions(v(5, -2), 1),
        vec![
            v(4, -3), v(4, -2), v(4, -1),
            v(5, -3), v(5, -2), v(5, -1),
            v(6, -3), v(6, -2), v(6, -1),
        ]
    );
    assert_eq!(get_adjacent_chunk_positions(v(5, -2), 0), vec![v(5, -2)]);
    assert!(get_adjacent_chunk_positions(v(5, -2), -1).is_empty());
    assert_eq!(get_adjacent_chunk_positions(v(0, 0), 3).len(), 49);
}

#[test]
fn tileset_glyphs() {
    assert_eq!(tileset_index(v(0, 0), 0, TileType::Wall), 4);
    assert_eq!(tileset_index(v(0, 0), 0, TileType::Floor), 4);
    assert_eq!(tileset_index(v(0, 0), 1, TileType::Wall), 1);
    assert_eq!(tileset_index(v(1, 0), 0, TileType::Floor), 44);
    assert_eq!(tileset_index(v(0, 1), 7, TileType::Test), 22);
}

#[test]
fn chunk_glyphs_follow_the_tiles() {
    let mut tiles = vec![TileType::Floor; (CHUNK_SIZE * CHUNK_SIZE) as usize];
    tiles[0] = TileType::Wall;
    tiles[5] = TileType::Test;
    tiles[16383] = TileType::Wall;
    let origin = chunk_tileset_indices(v(0, 0), &tiles);
    assert_eq!(origin.len(), 16384);
    assert_eq!(origin[0], 4);
    assert_eq!(origin[1], 44);
    assert_eq!(origin[5], 22);
    assert_eq!(origin[16383], 1);
    let other = chunk_tileset_indices(v(-1, 0), &tiles);
    assert_eq!(other[0], 1);
}

#[test]
fn chunk_origins_in_pixels() {
    assert_eq!(chunk_pixel_origin(v(0, 0)), v(0, 0));
    assert_eq!(chunk_pixel_origin(v(1, -2)), v(1024, -2048));
}

#[test]
fn overmap_tiles_become_render_tiles() {
    let mut chunk = OvermapChunk::new(OvermapChunkCoords(v(2, 3)));
    chunk.overmap_tiles[0] = Some(OvermapTileType::Road);
    chunk.overmap_tiles[1] = Some(OvermapTileType::House);
    let (pos, data) = overmap_tiles_to_chunk_data(&chunk);
    assert_eq!(pos, v(2, 3));
    assert_eq!(data.tiles.len(), 16384);
    assert_eq!(data.tiles[0], TileType::Wall);
    assert_eq!(data.tiles[1], TileType::Test);
    assert_eq!(data.tiles[2], TileType::Floor);
}

#[test]
fn first_load_spawns_the_nine_chunks_around_the_player() {
    let mut loaded = vec![];
    let plan = plan_chunk_loads(v(5, 5), &vec![], &mut loaded);
    assert!(plan.despawn.is_empty());
    assert_eq!(plan.spawn, get_adjacent_chunk_positions(v(0, 0), 1));
    assert_eq!(loaded, plan.spawn);
}

#[test]
fn player_left_of_the_origin_is_in_chunk_minus_one() {
    let mut loaded = vec![];
    let plan = plan_chunk_loads(v(-1, 127), &vec![], &mut loaded);
    assert_eq!(plan.spawn, get_adjacent_chunk_positions(v(-1, 0), 1));
}

#[test]
fn far_chunks_are_dropped_and_near_ones_kept() {
    let mut loaded = vec![v(0, 0), v(5, 5), v(2, 0), v(9, 9)];
    let spawned = vec![v(0, 0), v(5, 5), v(2, 0)];
    let plan = plan_chunk_loads(v(10, 10), &spawned, &mut loaded);
    assert_eq!(plan.despawn, vec![1]);
    let mut expected = get_adjacent_chunk_positions(v(0, 0), 1);
    expected.retain(|p| *p != v(0, 0));
    assert_eq!(plan.spawn, expected);
    let mut expected_loaded = vec![v(0, 0), v(2, 0), v(9, 9)];
    expected_loaded.extend(expected.iter().copied());
    assert_eq!(loaded, expected_loaded);
}

#[test]
fn nothing_changes_when_all_is_loaded() {
    let spawned = get_adjacent_chunk_positions(v(3, 3), 1);
    let mut loaded = spawned.clone();
    let plan = plan_chunk_loads(v(3 * 128 + 1, 3 * 128 + 100), &spawned, &mut loaded);
    assert!(plan.despawn.is_empty());
    assert!(plan.spawn.is_empty());
    assert_eq!(loaded, spawned);
}

#[test]
fn chunk_data_covers_the_generated_overmap() {
    let mut map_data = MapData { loaded_chunks: vec![v(1, 1)], chunk_data: ChunkDataMap::new() };
    generate_chunk_data(&mut map_data, &|d: u32, s: i32| {
        let t = d as f32 / s as f32;
        (100.0 * t * t * t) as i32
    });
    assert_eq!(map_data.loaded_chunks, vec![v(1, 1)]);
    assert_eq!(map_data.chunk_data.len(), 25);
    for y in -2..=2 {
        for x in -2..=2 {
            assert_eq!(map_data.chunk_data[&v(x, y)].tiles.len(), 16384);
        }
    }
    let again = {
        let mut m = MapData { loaded_chunks: vec![], chunk_data: ChunkDataMap::new() };
        generate_chunk_data(&mut m, &|d: u32, s: i32| {
            let t = d as f32 / s as f32;
            (100.0 * t * t * t) as i32
        });
        m
    };
    for y in -2..=2 {
        for x in -2..=2 {
            assert_eq!(map_data.chunk_data[&v(x, y)].tiles, again.chunk_data[&v(x, y)].tiles);
        }
    }
}
