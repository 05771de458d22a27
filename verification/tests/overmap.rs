use rand::SeedableRng;
use roguemap::ivec::IVec2;
use roguemap::map::chunk_cursor::ChunkCursor;
use roguemap::map::overmap_generator::{
    add_cities_to_chunk, generate_overmap_chunk, spawn_child_road_builder, BuildingCandidates,
    BuildingShape, City, CityId, GameMap, OvermapChunk, OvermapChunkCoords, OvermapTileType,
    RoadBuilder, RoadBuilderAction, OVERMAP_CHUNK_SIZE,
};
use roguemap::outside::{CandidateMap, ChunkMap, OccupancyMap};

fn v(x: i32, y: i32) -> IVec2 {
    IVec2 { x, y }
}

fn rng(seed: u64) -> chacha20::ChaCha8Rng {
    chacha20::ChaCha8Rng::seed_from_u64(seed)
}

/// The chance in percent that a builder stops: the cube of its distance from
/// the centre over the city's size.
fn cubic_stop(distance: u32, size: i32) -> i32 {
    let t = distance as f32 / size as f32;
    (100.0 * t * t * t) as i32
}

fn tile(m: &ChunkMap, chunk: IVec2, pos: IVec2) -> Option<OvermapTileType> {
    m[&OvermapChunkCoords(chunk)].overmap_tiles[(pos.y * OVERMAP_CHUNK_SIZE + pos.x) as usize]
}

#[test]
fn placement_chances() {
    assert_eq!(BuildingShape::OneByOne.placement_chance(), 8);
    assert_eq!(BuildingShape::OneByTwo.placement_chance(), 1);
    assert_eq!(BuildingShape::TwoByOne.placement_chance(), 2);
    assert_eq!(BuildingShape::TwoByTwo.placement_chance(), 4);
}

#[test]
fn footprints_are_anchored_at_the_origin() {
    let up = v(0, 1);
    assert_eq!(BuildingShape::OneByOne.footprint(up), vec![v(0, 0)]);
    assert_eq!(BuildingShape::OneByTwo.footprint(up), vec![v(0, 0), v(0, -1)]);
    assert_eq!(BuildingShape::TwoByOne.footprint(up), vec![v(0, 0), v(1, 0)]);
    assert_eq!(BuildingShape::TwoByTwo.footprint(up), vec![v(0, 0), v(0, -1), v(1, 0), v(1, -1)]);
    assert_eq!(BuildingShape::TwoByTwo.footprint(v(-1, 0)), vec![v(0, 0), v(1, 0), v(0, -1), v(1, -1)]);
}

#[test]
fn road_builder_weights_by_generation() {
    let k = OvermapChunkCoords(v(0, 0));
    let b0 = RoadBuilder::new(k, v(5, 6), k, v(0, 1), 0);
    assert_eq!(b0.cumulative_action_weights, 12);
    assert_eq!(
        b0.action_probabilities,
        vec![
            (RoadBuilderAction::Continue, 8),
            (RoadBuilderAction::SplitTwice, 2),
            (RoadBuilderAction::SplitTwiceAndContinue, 2),
        ]
    );
    assert_eq!(b0.moves_since_split, 0);
    assert_eq!(b0.chunk_cursor.local_pos, v(5, 6));
    let b1 = RoadBuilder::new(k, v(5, 6), k, v(0, 1), 3);
    assert_eq!(b1.cumulative_action_weights, 10);
    assert_eq!(b1.action_probabilities.len(), 5);
    assert_eq!(b1.generation, 3);
}

#[test]
fn perpendicular_directions() {
    let k = OvermapChunkCoords(v(0, 0));
    let b = RoadBuilder::new(k, v(5, 6), k, v(0, 1), 0);
    assert_eq!(b.get_perpendicular_directions(), vec![v(1, 0), v(-1, 0)]);
    let b = RoadBuilder::new(k, v(5, 6), k, v(-1, 0), 0);
    assert_eq!(b.get_perpendicular_directions(), vec![v(0, -1), v(0, 1)]);
}

fn test_city() -> City {
    City { id: CityId(0), position: v(5, 6), overmap_chunk_coordinate: OvermapChunkCoords(v(0, 0)), size: 100, connected_to: vec![] }
}

#[test]
fn spawned_children_turn_and_grow_a_generation() {
    let k = OvermapChunkCoords(v(0, 0));
    let mut builders = vec![RoadBuilder::new(OvermapChunkCoords(v(1, 0)), v(7, 8), k, v(0, 1), 0)];
    let city = test_city();
    spawn_child_road_builder(&mut builders, &city, 1, 0);
    spawn_child_road_builder(&mut builders, &city, 0, 0);
    assert_eq!(builders.len(), 3);
    assert_eq!(builders[1].direction, v(1, 0));
    assert_eq!(builders[2].direction, v(-1, 0));
    for child in &builders[1..] {
        assert_eq!(child.generation, 1);
        assert_eq!(child.chunk_cursor.chunk_coord, OvermapChunkCoords(v(1, 0)));
        assert_eq!(child.chunk_cursor.local_pos, v(7, 8));
        assert_eq!(child.origin_chunk, k);
        assert_eq!(child.cumulative_action_weights, 10);
    }
    assert_eq!(builders[0].generation, 0);
}

#[test]
fn candidate_ids_count_up() {
    let mut c = BuildingCandidates { id_counter: 7, candidates: CandidateMap::new(), occupancy_map: OccupancyMap::new() };
    assert_eq!(c.get_next_id(), 7);
    assert_eq!(c.get_next_id(), 8);
    assert_eq!(c.id_counter, 9);
}

#[test]
fn new_chunk_is_empty() {
    let chunk = OvermapChunk::new(OvermapChunkCoords(v(-3, 4)));
    assert_eq!(chunk.coordinates, OvermapChunkCoords(v(-3, 4)));
    assert_eq!(chunk.overmap_tiles.len(), 16384);
    assert!(chunk.overmap_tiles.iter().all(|t| t.is_none()));
    assert!(chunk.cities.is_empty());
    assert!(!chunk.generation_complete);
}

#[test]
fn cities_are_added_two_times_in_three() {
    let mut with_city = 0;
    let mut without = 0;
    for seed in 0..60 {
        let mut chunk = OvermapChunk::new(OvermapChunkCoords(v(2, -1)));
        add_cities_to_chunk(&mut chunk, &mut rng(seed));
        match chunk.cities.get(&CityId(0)) {
            Some(city) => {
                with_city += 1;
                assert_eq!(chunk.cities.len(), 1);
                assert_eq!(city.id, CityId(0));
                assert_eq!(city.overmap_chunk_coordinate, OvermapChunkCoords(v(2, -1)));
                assert!(0 <= city.position.x && city.position.x < 128);
                assert!(0 <= city.position.y && city.position.y < 128);
                assert!(64 <= city.size && city.size <= 128);
                assert!(city.connected_to.is_empty());
            }
            None => {
                without += 1;
                assert!(chunk.cities.is_empty());
            }
        }
        assert!(chunk.overmap_tiles.iter().all(|t| t.is_none()));
    }
    assert!(with_city > 0);
    assert!(without > 0);
    assert!(with_city > without);
}

fn check_generated(m: &ChunkMap, centre: IVec2) {
    for dy in -2..=2 {
        for dx in -2..=2 {
            let k = OvermapChunkCoords(v(centre.x + dx, centre.y + dy));
            let chunk = m.get(&k).expect("chunk around the centre");
            assert_eq!(chunk.coordinates, k);
            assert_eq!(chunk.overmap_tiles.len(), 16384);
        }
    }
    for dy in -1..=1 {
        for dx in -1..=1 {
            let c = v(centre.x + dx, centre.y + dy);
            let kc = OvermapChunkCoords(c);
            for n in [v(c.x + 1, c.y), v(c.x - 1, c.y), v(c.x, c.y + 1), v(c.x, c.y - 1)] {
                let kn = OvermapChunkCoords(n);
                for (id_a, city_a) in m[&kc].cities.iter() {
                    for (id_b, city_b) in m[&kn].cities.iter() {
                        assert_eq!(tile(m, c, city_a.position), Some(OvermapTileType::House));
                        assert!(city_a.connected_to.contains(&(kn, *id_b)));
                        assert!(city_b.connected_to.contains(&(kc, *id_a)));
                        assert_eq!(tile(m, n, city_b.position), Some(OvermapTileType::House));
                    }
                }
            }
        }
    }
}

#[test]
fn generation_fills_and_connects_the_neighbourhood() {
    let mut game_map = GameMap { overmap_chunks: ChunkMap::new() };
    generate_overmap_chunk(&mut game_map, v(0, 0), &mut rng(1234), &cubic_stop);
    assert_eq!(game_map.overmap_chunks.len(), 25);
    check_generated(&game_map.overmap_chunks, v(0, 0));
    let set = game_map.overmap_chunks.values().flat_map(|c| c.overmap_tiles.iter()).filter(|t| t.is_some()).count();
    let cities: usize = game_map.overmap_chunks.values().map(|c| c.cities.len()).sum();
    if cities > 0 {
        assert!(set > 0);
    }
}

#[test]
fn generating_again_keeps_every_tile() {
    let mut game_map = GameMap { overmap_chunks: ChunkMap::new() };
    let mut r = rng(99);
    generate_overmap_chunk(&mut game_map, v(0, 0), &mut r, &cubic_stop);
    let before: Vec<(OvermapChunkCoords, Vec<Option<OvermapTileType>>)> =
        game_map.overmap_chunks.iter().map(|(k, c)| (*k, c.overmap_tiles.clone())).collect();
    generate_overmap_chunk(&mut game_map, v(1, 0), &mut r, &cubic_stop);
    assert_eq!(game_map.overmap_chunks.len(), 30);
    check_generated(&game_map.overmap_chunks, v(1, 0));
    for (k, tiles) in before {
        let now = &game_map.overmap_chunks[&k].overmap_tiles;
        for (i, t) in tiles.iter().enumerate() {
            match t {
                Some(OvermapTileType::House) => assert_eq!(now[i], Some(OvermapTileType::House)),
                Some(OvermapTileType::Road) => assert!(now[i].is_some()),
                None => {}
            }
        }
    }
}

#[test]
fn generation_is_deterministic_for_a_seed() {
    let mut a = GameMap { overmap_chunks: ChunkMap::new() };
    let mut b = GameMap { overmap_chunks: ChunkMap::new() };
    generate_overmap_chunk(&mut a, v(3, -2), &mut rng(5), &cubic_stop);
    generate_overmap_chunk(&mut b, v(3, -2), &mut rng(5), &cubic_stop);
    for (k, chunk) in a.overmap_chunks.iter() {
        assert_eq!(chunk.overmap_tiles, b.overmap_chunks[k].overmap_tiles);
    }
}

#[test]
fn builders_that_always_stop_leave_one_tile_each() {
    let mut game_map = GameMap { overmap_chunks: ChunkMap::new() };
    generate_overmap_chunk(&mut game_map, v(0, 0), &mut rng(2024), &|_d: u32, _s: i32| 100);
    check_generated(&game_map.overmap_chunks, v(0, 0));
}

#[test]
fn cursor_of_a_builder_is_where_it_starts() {
    let k = OvermapChunkCoords(v(0, 0));
    let b = RoadBuilder::new(OvermapChunkCoords(v(0, 1)), v(1, 2), k, v(1, 0), 0);
    let ChunkCursor { chunk_coord, local_pos } = b.chunk_cursor;
    assert_eq!(chunk_coord, OvermapChunkCoords(v(0, 1)));
    assert_eq!(local_pos, v(1, 2));
}

/// Labels every set tile with the number of its 4-connected region of set tiles.
fn road_regions(m: &ChunkMap) -> std::collections::HashMap<(i32, i32), usize> {
    let mut set = std::collections::HashSet::new();
    for (k, chunk) in m.iter() {
        for (i, t) in chunk.overmap_tiles.iter().enumerate() {
            if t.is_some() {
                set.insert((k.0.x * 128 + (i % 128) as i32, k.0.y * 128 + (i / 128) as i32));
            }
        }
    }
    let mut region = std::collections::HashMap::new();
    let mut next = 0;
    for &start in &set {
        if region.contains_key(&start) {
            continue;
        }
        let mut stack = vec![start];
        region.insert(start, next);
        while let Some((x, y)) = stack.pop() {
            for n in [(x + 1, y), (x - 1, y), (x, y + 1), (x, y - 1)] {
                if set.contains(&n) && !region.contains_key(&n) {
                    region.insert(n, next);
                    stack.push(n);
                }
            }
        }
        next += 1;
    }
    region
}

#[test]
fn every_connection_is_a_road() {
    for seed in [1u64, 2, 3] {
        let mut game_map = GameMap { overmap_chunks: ChunkMap::new() };
        generate_overmap_chunk(&mut game_map, v(0, 0), &mut rng(seed), &cubic_stop);
        let m = &game_map.overmap_chunks;
        let regions = road_regions(m);
        let mut links = 0;
        for (k, chunk) in m.iter() {
            for city in chunk.cities.values() {
                let a = (k.0.x * 128 + city.position.x, k.0.y * 128 + city.position.y);
                for (n, id) in &city.connected_to {
                    let other = &m[n].cities[id];
                    let b = (n.0.x * 128 + other.position.x, n.0.y * 128 + other.position.y);
                    assert_eq!(regions.get(&a), regions.get(&b));
                    assert!(regions.contains_key(&a));
                    links += 1;
                }
            }
        }
        let _ = links;
    }
}
