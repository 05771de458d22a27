use rand::SeedableRng;
use roguemap::ivec::IVec2;
use roguemap::map::generator;
use roguemap::map::overmap_generator::{
    generate_overmap_chunk, place_candidate, settle_city, BuildingCandidate, BuildingCandidates, BuildingShape, City, CityId,
    GameMap, OvermapChunk, OvermapChunkCoords, OvermapTileType, OVERMAP_CHUNK_SIZE,
};
use roguemap::outside::{CandidateMap, ChunkMap, OccupancyMap};

fn v(x: i32, y: i32) -> IVec2 {
    IVec2 { x, y }
}

fn tile(m: &ChunkMap, chunk: IVec2, pos: IVec2) -> Option<OvermapTileType> {
    m[&OvermapChunkCoords(chunk)].overmap_tiles[(pos.y * OVERMAP_CHUNK_SIZE + pos.x) as usize]
}

fn candidate(id: usize, pos: IVec2, shape: BuildingShape) -> BuildingCandidate {
    BuildingCandidate {
        id,
        position: pos,
        chunk_coord: OvermapChunkCoords(v(0, 0)),
        direction_to_road: v(0, 1),
        shape,
    }
}

/// One chunk with a two by two candidate at (10, 10), a one by one candidate
/// on one of its tiles, and another one by one candidate far away.
fn setup() -> (GameMap, BuildingCandidates) {
    let k = OvermapChunkCoords(v(0, 0));
    let mut chunks = ChunkMap::new();
    chunks.insert(k, OvermapChunk::new(k));
    let mut candidates = CandidateMap::new();
    candidates.insert(0, candidate(0, v(10, 10), BuildingShape::TwoByTwo));
    candidates.insert(1, candidate(1, v(11, 9), BuildingShape::OneByOne));
    candidates.insert(2, candidate(2, v(30, 30), BuildingShape::OneByOne));
    let mut occupancy = OccupancyMap::new();
    occupancy.insert((k, v(10, 10)), vec![0]);
    occupancy.insert((k, v(10, 9)), vec![0]);
    occupancy.insert((k, v(11, 10)), vec![0]);
    occupancy.insert((k, v(11, 9)), vec![0, 1]);
    occupancy.insert((k, v(30, 30)), vec![2]);
    (
        GameMap { overmap_chunks: chunks },
        BuildingCandidates { id_counter: 3, candidates, occupancy_map: occupancy },
    )
}

fn set_count(m: &ChunkMap) -> usize {
    m.values().flat_map(|c| c.overmap_tiles.iter()).filter(|t| t.is_some()).count()
}

#[test]
fn a_passing_roll_builds_the_footprint_and_drops_covering_candidates() {
    let (mut map, mut bc) = setup();
    place_candidate(&mut map, &mut bc, 0, 3);
    for p in [v(10, 10), v(10, 9), v(11, 10), v(11, 9)] {
        assert_eq!(tile(&map.overmap_chunks, v(0, 0), p), Some(OvermapTileType::House));
    }
    assert_eq!(set_count(&map.overmap_chunks), 4);
    assert!(!bc.candidates.contains_key(&0));
    assert!(!bc.candidates.contains_key(&1));
    assert!(bc.candidates.contains_key(&2));
    assert_eq!(bc.id_counter, 3);
    assert_eq!(bc.occupancy_map.len(), 5);
}

#[test]
fn a_failing_roll_or_a_missing_candidate_changes_nothing() {
    let (mut map, mut bc) = setup();
    place_candidate(&mut map, &mut bc, 0, 4);
    place_candidate(&mut map, &mut bc, 2, 8);
    place_candidate(&mut map, &mut bc, 7, 0);
    assert_eq!(set_count(&map.overmap_chunks), 0);
    assert_eq!(bc.candidates.len(), 3);
}

#[test]
fn a_one_by_one_candidate_is_built_below_its_chance() {
    let (mut map, mut bc) = setup();
    place_candidate(&mut map, &mut bc, 2, 7);
    assert_eq!(tile(&map.overmap_chunks, v(0, 0), v(30, 30)), Some(OvermapTileType::House));
    assert_eq!(set_count(&map.overmap_chunks), 1);
    assert_eq!(bc.candidates.len(), 2);
}

#[test]
fn settling_a_city_follows_the_roll() {
    let k = OvermapChunkCoords(v(2, -1));
    let mut chunk = OvermapChunk::new(k);
    settle_city(&mut chunk, 0, v(5, 6), 100);
    assert!(chunk.cities.is_empty());
    settle_city(&mut chunk, 2, v(5, 6), 100);
    let c = &chunk.cities[&CityId(0)];
    assert_eq!(c.position, v(5, 6));
    assert_eq!(c.size, 100);
    assert_eq!(c.overmap_chunk_coordinate, k);
    assert!(c.connected_to.is_empty());
    assert_eq!(chunk.cities.len(), 1);
}

#[test]
fn settling_a_roads_only_city_follows_the_coin() {
    let k = OvermapChunkCoords(v(0, 3));
    let mut chunk = OvermapChunk::new(k);
    generator::settle_city(&mut chunk, 0, v(7, 8));
    assert!(chunk.cities.is_empty());
    generator::settle_city(&mut chunk, 1, v(7, 8));
    let c = &chunk.cities[&CityId(0)];
    assert_eq!(c.position, v(7, 8));
    assert_eq!(c.size, 128);
    assert_eq!(c.overmap_chunk_coordinate, k);
}

#[test]
fn old_road_needs_only_the_chunks_on_its_path() {
    let mut m = ChunkMap::new();
    for (x, y) in [(0, 0), (1, 0), (1, -1)] {
        let k = OvermapChunkCoords(v(x, y));
        m.insert(k, OvermapChunk::new(k));
    }
    generator::insert_road_tiles_between_cities_old(
        &mut m, v(10, 20), OvermapChunkCoords(v(0, 0)), v(5, 30), OvermapChunkCoords(v(1, -1)),
    );
    assert_eq!(tile(&m, v(0, 0), v(10, 20)), Some(OvermapTileType::House));
    assert_eq!(tile(&m, v(1, -1), v(5, 30)), Some(OvermapTileType::House));
    assert_eq!(tile(&m, v(1, 0), v(5, 20)), Some(OvermapTileType::Road));
    assert_eq!(tile(&m, v(1, 0), v(5, 0)), Some(OvermapTileType::Road));
    assert_eq!(tile(&m, v(1, -1), v(5, 127)), Some(OvermapTileType::Road));
    assert_eq!(set_count(&m), (133 - 10) + (20 + 98) + 1);
}

fn cubic_stop(distance: u32, size: i32) -> i32 {
    let t = distance as f32 / size as f32;
    (100.0 * t * t * t) as i32
}

#[test]
fn connections_are_returned_unique_and_between_side_neighbours() {
    let mut game_map = GameMap { overmap_chunks: ChunkMap::new() };
    let mut r = chacha20::ChaCha8Rng::seed_from_u64(4242);
    generate_overmap_chunk(&mut game_map, v(0, 0), &mut r, &cubic_stop);
    generate_overmap_chunk(&mut game_map, v(1, 1), &mut r, &cubic_stop);
    let m = &game_map.overmap_chunks;
    for (k, chunk) in m.iter() {
        for (id, city) in chunk.cities.iter() {
            for (i, link) in city.connected_to.iter().enumerate() {
                let other = &m[&link.0].cities[&link.1];
                assert!(other.connected_to.contains(&(*k, *id)));
                assert_eq!((k.0.x - link.0 .0.x).abs() + (k.0.y - link.0 .0.y).abs(), 1);
                assert!(!city.connected_to[i + 1..].contains(link));
            }
        }
    }
}

#[test]
fn streets_begin_next_to_every_city_centre() {
    let mut game_map = GameMap { overmap_chunks: ChunkMap::new() };
    let mut r = chacha20::ChaCha8Rng::seed_from_u64(77);
    generate_overmap_chunk(&mut game_map, v(0, 0), &mut r, &|_d: u32, _s: i32| 100);
    let m = &game_map.overmap_chunks;
    let global = |x: i32, y: i32| {
        let chunk = v(x.div_euclid(128), y.div_euclid(128));
        let local = v(x.rem_euclid(128), y.rem_euclid(128));
        tile(m, chunk, local)
    };
    for dy in -1..=1 {
        for dx in -1..=1 {
            let k = OvermapChunkCoords(v(dx, dy));
            for city in m[&k].cities.values() {
                let gx = dx * 128 + city.position.x;
                let gy = dy * 128 + city.position.y;
                for (ox, oy) in [(0, 1), (0, -1), (1, 0), (-1, 0)] {
                    assert!(global(gx + ox, gy + oy).is_some());
                }
            }
        }
    }
}

#[test]
fn generation_leaves_far_chunks_alone() {
    let far = OvermapChunkCoords(v(4, 0));
    let mut chunks = ChunkMap::new();
    let mut chunk = OvermapChunk::new(far);
    chunk.overmap_tiles[5] = Some(OvermapTileType::Road);
    chunks.insert(far, chunk);
    let mut game_map = GameMap { overmap_chunks: chunks };
    let mut r = chacha20::ChaCha8Rng::seed_from_u64(9);
    generate_overmap_chunk(&mut game_map, v(0, 0), &mut r, &cubic_stop);
    let tiles = &game_map.overmap_chunks[&far].overmap_tiles;
    assert_eq!(tiles[5], Some(OvermapTileType::Road));
    assert_eq!(tiles.iter().filter(|t| t.is_some()).count(), 1);
    assert!(game_map.overmap_chunks[&far].cities.is_empty());
}

#[test]
fn streets_reach_three_tiles_from_every_centre_under_the_cubic_curve() {
    let mut game_map = GameMap { overmap_chunks: ChunkMap::new() };
    let mut r = chacha20::ChaCha8Rng::seed_from_u64(31);
    generate_overmap_chunk(&mut game_map, v(0, 0), &mut r, &cubic_stop);
    let m = &game_map.overmap_chunks;
    let global = |x: i32, y: i32| {
        let chunk = v(x.div_euclid(128), y.div_euclid(128));
        let local = v(x.rem_euclid(128), y.rem_euclid(128));
        tile(m, chunk, local)
    };
    let mut cities = 0;
    for dy in -1..=1 {
        for dx in -1..=1 {
            let k = OvermapChunkCoords(v(dx, dy));
            for city in m[&k].cities.values() {
                cities += 1;
                let gx = dx * 128 + city.position.x;
                let gy = dy * 128 + city.position.y;
                for step in 1..=3 {
                    for (ox, oy) in [(0, 1), (0, -1), (1, 0), (-1, 0)] {
                        assert!(global(gx + ox * step, gy + oy * step).is_some());
                    }
                }
            }
        }
    }
    assert!(cities > 0);
}

#[test]
fn generation_keeps_far_cities_and_their_connections() {
    let far = OvermapChunkCoords(v(5, 0));
    let mut chunk = OvermapChunk::new(far);
    let link = (OvermapChunkCoords(v(6, 0)), CityId(0));
    chunk.cities.insert(
        CityId(0),
        City { id: CityId(0), position: v(20, 30), overmap_chunk_coordinate: far, size: 80, connected_to: vec![link] },
    );
    let mut chunks = ChunkMap::new();
    chunks.insert(far, chunk);
    let mut game_map = GameMap { overmap_chunks: chunks };
    let mut r = chacha20::ChaCha8Rng::seed_from_u64(12);
    generate_overmap_chunk(&mut game_map, v(0, 0), &mut r, &cubic_stop);
    let kept = &game_map.overmap_chunks[&far];
    assert_eq!(kept.cities.len(), 1);
    let city = &kept.cities[&CityId(0)];
    assert_eq!(city.connected_to, vec![link]);
    assert_eq!(city.position, v(20, 30));
    assert!(kept.overmap_tiles.iter().all(|t| t.is_none()));
}
