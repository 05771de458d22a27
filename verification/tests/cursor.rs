use roguemap::ivec::IVec2;
use roguemap::map::chunk_cursor::ChunkCursor;
use roguemap::map::overmap_generator::{OvermapChunk, OvermapChunkCoords, OvermapTileType};
use roguemap::outside::ChunkMap;

fn v(x: i32, y: i32) -> IVec2 {
    IVec2 { x, y }
}

fn cursor(cx: i32, cy: i32, x: i32, y: i32) -> ChunkCursor {
    ChunkCursor { chunk_coord: OvermapChunkCoords(v(cx, cy)), local_pos: v(x, y) }
}

fn map_with(chunks: &[(i32, i32)]) -> ChunkMap {
    let mut m = ChunkMap::new();
    for &(x, y) in chunks {
        let k = OvermapChunkCoords(v(x, y));
        m.insert(k, OvermapChunk::new(k));
    }
    m
}

#[test]
fn step_x_wraps_into_the_next_chunk() {
    let mut c = cursor(0, 0, 127, 5);
    c.step_x(1);
    assert_eq!(c.chunk_coord, OvermapChunkCoords(v(1, 0)));
    assert_eq!(c.local_pos, v(0, 5));
}

#[test]
fn step_x_wraps_into_the_previous_chunk() {
    let mut c = cursor(0, 0, 0, 5);
    c.step_x(-1);
    assert_eq!(c.chunk_coord, OvermapChunkCoords(v(-1, 0)));
    assert_eq!(c.local_pos, v(127, 5));
}

#[test]
fn step_y_wraps_both_ways() {
    let mut c = cursor(2, 3, 9, 127);
    c.step_y(1);
    assert_eq!(c.chunk_coord, OvermapChunkCoords(v(2, 4)));
    assert_eq!(c.local_pos, v(9, 0));
    c.step_y(-1);
    assert_eq!(c.chunk_coord, OvermapChunkCoords(v(2, 3)));
    assert_eq!(c.local_pos, v(9, 127));
}

#[test]
fn step_inside_a_chunk_stays() {
    let mut c = cursor(0, 0, 10, 10);
    c.step_x(1);
    c.step_y(-1);
    assert_eq!(c.chunk_coord, OvermapChunkCoords(v(0, 0)));
    assert_eq!(c.local_pos, v(11, 9));
}

#[test]
fn step_and_back_round_trip() {
    for &(x, y) in &[(0, 0), (127, 127), (0, 127), (64, 3)] {
        for &d in &[1, -1] {
            let mut c = cursor(-4, 7, x, y);
            c.step_x(d);
            c.step_x(-d);
            assert_eq!(c.chunk_coord, OvermapChunkCoords(v(-4, 7)));
            assert_eq!(c.local_pos, v(x, y));
            c.step_y(d);
            c.step_y(-d);
            assert_eq!(c.chunk_coord, OvermapChunkCoords(v(-4, 7)));
            assert_eq!(c.local_pos, v(x, y));
        }
    }
}

#[test]
fn position_delta_crosses_chunks() {
    let c = cursor(0, 0, 127, 0);
    assert_eq!(c.get_position_delta(v(1, -1)), (OvermapChunkCoords(v(1, -1)), v(0, 127)));
    assert_eq!(c.get_position_delta(v(0, 0)), (OvermapChunkCoords(v(0, 0)), v(127, 0)));
    assert_eq!(c.get_position_delta(v(-128, 256)), (OvermapChunkCoords(v(-1, 2)), v(127, 0)));
}

#[test]
fn set_tile_then_peek() {
    let mut m = map_with(&[(0, 0), (1, 0)]);
    let c = cursor(0, 0, 127, 4);
    c.set_tile(&mut m, OvermapTileType::Road);
    assert_eq!(c.peek_tile(&m, v(0, 0)), Some(OvermapTileType::Road));
    assert_eq!(m[&OvermapChunkCoords(v(0, 0))].overmap_tiles[4 * 128 + 127], Some(OvermapTileType::Road));
    let d = cursor(1, 0, 0, 4);
    d.set_tile(&mut m, OvermapTileType::House);
    assert_eq!(c.peek_tile(&m, v(1, 0)), Some(OvermapTileType::House));
    assert_eq!(c.peek_tile(&m, v(0, 1)), None);
}

#[test]
fn peek_into_a_missing_chunk_is_none() {
    let m = map_with(&[(0, 0)]);
    let c = cursor(0, 0, 0, 0);
    assert_eq!(c.peek_tile(&m, v(-1, 0)), None);
}

#[test]
fn set_tile_never_overwrites_a_house() {
    let mut m = map_with(&[(0, 0)]);
    let c = cursor(0, 0, 3, 3);
    c.set_tile(&mut m, OvermapTileType::House);
    c.set_tile(&mut m, OvermapTileType::Road);
    assert_eq!(c.peek_tile(&m, v(0, 0)), Some(OvermapTileType::House));
    let d = cursor(0, 0, 4, 3);
    d.set_tile(&mut m, OvermapTileType::Road);
    d.set_tile(&mut m, OvermapTileType::House);
    assert_eq!(d.peek_tile(&m, v(0, 0)), Some(OvermapTileType::House));
}
