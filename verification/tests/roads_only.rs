use rand::SeedableRng;
use roguemap::ivec::IVec2;
use roguemap::map::generator::{
    add_cities_to_chunk, generate_overmap_chunk, insert_road_tiles_between_cities,
    insert_road_tiles_between_cities_old, CityId, GameMap, OvermapChunk, OvermapChunkCoords,
    OvermapTileType,
};
use roguemap::outside::ChunkMap;

fn v(x: i32, y: i32) -> IVec2 {
    IVec2 { x, y }
}

fn rng(seed: u64) -> chacha20::ChaCha8Rng {
    chacha20::ChaCha8Rng::seed_from_u64(seed)
}

fn map_with(chunks: &[(i32, i32)]) -> ChunkMap {
    let mut m = ChunkMap::new();
    for &(x, y) in chunks {
        let k = OvermapChunkCoords(v(x, y));
        m.insert(k, OvermapChunk::new(k));
    }
    m
}

/// The tile at an overmap-wide position.
fn global_tile(m: &ChunkMap, x: i32, y: i32) -> Option<OvermapTileType> {
    let chunk = v(x.div_euclid(128), y.div_euclid(128));
    let local = v(x.rem_euclid(128), y.rem_euclid(128));
    m[&OvermapChunkCoords(chunk)].overmap_tiles[(local.y * 128 + local.x) as usize]
}

fn set_count(m: &ChunkMap) -> usize {
    m.values().flat_map(|c| c.overmap_tiles.iter()).filter(|t| t.is_some()).count()
}

#[test]
fn old_road_is_an_l_shape() {
    let mut m = map_with(&[(0, 0), (1, 0)]);
    insert_road_tiles_between_cities_old(&mut m, v(10, 20), OvermapChunkCoords(v(0, 0)), v(5, 30), OvermapChunkCoords(v(1, 0)));
    assert_eq!(global_tile(&m, 10, 20), Some(OvermapTileType::House));
    assert_eq!(global_tile(&m, 133, 30), Some(OvermapTileType::House));
    for x in 11..=133 {
        assert_eq!(global_tile(&m, x, 20), Some(OvermapTileType::Road));
    }
    for y in 21..30 {
        assert_eq!(global_tile(&m, 133, y), Some(OvermapTileType::Road));
    }
    assert_eq!(set_count(&m), (133 - 10) + (30 - 20) + 1);
}

#[test]
fn old_road_runs_towards_lower_coordinates() {
    let mut m = map_with(&[(0, 0), (0, -1)]);
    insert_road_tiles_between_cities_old(&mut m, v(50, 5), OvermapChunkCoords(v(0, 0)), v(40, 120), OvermapChunkCoords(v(0, -1)));
    assert_eq!(global_tile(&m, 50, 5), Some(OvermapTileType::House));
    assert_eq!(global_tile(&m, 40, -8), Some(OvermapTileType::House));
    for x in 40..50 {
        assert_eq!(global_tile(&m, x, 5), Some(OvermapTileType::Road));
    }
    for y in -7..=5 {
        if y != 5 {
            assert_eq!(global_tile(&m, 40, y), Some(OvermapTileType::Road));
        }
    }
}

#[test]
fn old_road_keeps_houses_on_the_way() {
    let mut m = map_with(&[(0, 0)]);
    insert_road_tiles_between_cities_old(&mut m, v(60, 60), OvermapChunkCoords(v(0, 0)), v(60, 60), OvermapChunkCoords(v(0, 0)));
    assert_eq!(set_count(&m), 1);
    insert_road_tiles_between_cities_old(&mut m, v(50, 60), OvermapChunkCoords(v(0, 0)), v(70, 60), OvermapChunkCoords(v(0, 0)));
    assert_eq!(global_tile(&m, 60, 60), Some(OvermapTileType::House));
    assert_eq!(global_tile(&m, 59, 60), Some(OvermapTileType::Road));
    assert_eq!(global_tile(&m, 61, 60), Some(OvermapTileType::Road));
}

#[test]
fn random_road_joins_both_cities() {
    for seed in 0..10 {
        let mut m = map_with(&[(0, 0), (1, 0), (0, 1), (1, 1)]);
        insert_road_tiles_between_cities(&mut m, v(10, 100), OvermapChunkCoords(v(0, 0)), v(90, 40), OvermapChunkCoords(v(1, 1)), &mut rng(seed));
        assert_eq!(global_tile(&m, 10, 100), Some(OvermapTileType::House));
        assert_eq!(global_tile(&m, 128 + 90, 128 + 40), Some(OvermapTileType::House));
        let manhattan = (218 - 10) + (168 - 100);
        assert_eq!(set_count(&m), manhattan + 1);
    }
}

#[test]
fn random_road_has_a_straight_exit() {
    let mut m = map_with(&[(0, 0), (1, 0)]);
    insert_road_tiles_between_cities(&mut m, v(10, 10), OvermapChunkCoords(v(0, 0)), v(100, 20), OvermapChunkCoords(v(1, 0)), &mut rng(3));
    for x in 11..=42 {
        assert_eq!(global_tile(&m, x, 10), Some(OvermapTileType::Road));
    }
}

#[test]
fn roads_only_cities_are_half_the_chunks_and_size_128() {
    let mut with_city = 0;
    let mut without = 0;
    for seed in 0..60 {
        let mut chunk = OvermapChunk::new(OvermapChunkCoords(v(0, 0)));
        add_cities_to_chunk(&mut chunk, &mut rng(seed));
        match chunk.cities.get(&CityId(0)) {
            Some(city) => {
                with_city += 1;
                assert_eq!(city.size, 128);
                assert!(0 <= city.position.x && city.position.x < 128);
                assert!(0 <= city.position.y && city.position.y < 128);
                assert!(city.connected_to.is_empty());
            }
            None => without += 1,
        }
    }
    assert!(with_city > 0);
    assert!(without > 0);
}

#[test]
fn roads_only_generation_builds_no_houses_but_city_ends() {
    let mut game_map = GameMap { overmap_chunks: ChunkMap::new() };
    generate_overmap_chunk(&mut game_map, v(0, 0), &mut rng(1234), &|d: u32, s: i32| {
        let t = d as f32 / s as f32;
        (100.0 * t * t * t) as i32
    });
    assert_eq!(game_map.overmap_chunks.len(), 25);
    let mut city_tiles = std::collections::HashSet::new();
    for (k, chunk) in game_map.overmap_chunks.iter() {
        for city in chunk.cities.values() {
            assert_eq!(city.size, 128);
            city_tiles.insert((k.0.x * 128 + city.position.x, k.0.y * 128 + city.position.y));
        }
    }
    for (k, chunk) in game_map.overmap_chunks.iter() {
        for (i, t) in chunk.overmap_tiles.iter().enumerate() {
            if *t == Some(OvermapTileType::House) {
                let g = (k.0.x * 128 + (i % 128) as i32, k.0.y * 128 + (i / 128) as i32);
                assert!(city_tiles.contains(&g));
            }
        }
    }
    for dy in -1..=1 {
        for dx in -1..=1 {
            let kc = OvermapChunkCoords(v(dx, dy));
            for n in [v(dx + 1, dy), v(dx - 1, dy), v(dx, dy + 1), v(dx, dy - 1)] {
                let kn = OvermapChunkCoords(n);
                for city_a in game_map.overmap_chunks[&kc].cities.values() {
                    for id_b in game_map.overmap_chunks[&kn].cities.keys() {
                        assert!(city_a.connected_to.contains(&(kn, *id_b)));
                    }
                }
            }
        }
    }
}

#[test]
fn roads_only_connections_are_roads() {
    let mut game_map = GameMap { overmap_chunks: ChunkMap::new() };
    generate_overmap_chunk(&mut game_map, v(-1, 2), &mut rng(77), &|_d: u32, _s: i32| 100);
    let m = &game_map.overmap_chunks;
    let mut set = std::collections::HashSet::new();
    for (k, chunk) in m.iter() {
        for (i, t) in chunk.overmap_tiles.iter().enumerate() {
            if t.is_some() {
                set.insert((k.0.x * 128 + (i % 128) as i32, k.0.y * 128 + (i / 128) as i32));
            }
        }
    }
    for (k, chunk) in m.iter() {
        for city in chunk.cities.values() {
            let a = (k.0.x * 128 + city.position.x, k.0.y * 128 + city.position.y);
            for (n, id) in &city.connected_to {
                let other = &m[n].cities[id];
                let b = (n.0.x * 128 + other.position.x, n.0.y * 128 + other.position.y);
                let mut seen = std::collections::HashSet::new();
                let mut stack = vec![a];
                seen.insert(a);
                while let Some((x, y)) = stack.pop() {
                    for p in [(x + 1, y), (x - 1, y), (x, y + 1), (x, y - 1)] {
                        if set.contains(&p) && seen.insert(p) {
                            stack.push(p);
                        }
                    }
                }
                assert!(seen.contains(&b));
            }
        }
    }
}
