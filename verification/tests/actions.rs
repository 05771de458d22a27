use roguemap::ivec::IVec2;
use roguemap::map::chunk_cursor::ChunkCursor;
use roguemap::map::overmap_generator::{
    apply_action, stops_on_roll, City, CityId, OvermapChunkCoords, RoadBuilder, RoadBuilderAction,
};

fn v(x: i32, y: i32) -> IVec2 {
    IVec2 { x, y }
}

fn home() -> OvermapChunkCoords {
    OvermapChunkCoords(v(0, 0))
}

fn city() -> City {
    City { id: CityId(0), position: v(10, 10), overmap_chunk_coordinate: home(), size: 100, connected_to: vec![] }
}

fn two_builders() -> Vec<RoadBuilder> {
    let mut first = RoadBuilder::new(home(), v(12, 10), home(), v(1, 0), 0);
    first.moves_since_split = 2;
    let second = RoadBuilder::new(home(), v(10, 14), home(), v(0, 1), 1);
    vec![first, second]
}

#[test]
fn continuing_leaves_the_builders_alone() {
    let mut builders = two_builders();
    let keep = apply_action(&mut builders, 0, &city(), RoadBuilderAction::Continue, 0);
    assert!(keep);
    assert_eq!(builders.len(), 2);
    assert_eq!(builders[0].moves_since_split, 2);
    assert_eq!(builders[1].chunk_cursor.local_pos, v(10, 14));
}

#[test]
fn a_single_split_replaces_the_builder_by_its_child() {
    let mut builders = two_builders();
    let keep = apply_action(&mut builders, 0, &city(), RoadBuilderAction::SplitOnce, 1);
    assert!(!keep);
    assert_eq!(builders.len(), 2);
    assert_eq!(builders[0].direction, v(0, 1));
    assert_eq!(builders[0].chunk_cursor.local_pos, v(10, 14));
    let child = &builders[1];
    assert_eq!(child.chunk_cursor.local_pos, v(12, 10));
    assert_eq!(child.direction, v(0, 1));
    assert_eq!(child.generation, 1);
    assert_eq!(child.moves_since_split, 0);
}

#[test]
fn a_single_split_that_goes_on_resets_the_move_count() {
    let mut builders = two_builders();
    let keep = apply_action(&mut builders, 0, &city(), RoadBuilderAction::SplitOnceAndContinue, 0);
    assert!(keep);
    assert_eq!(builders.len(), 3);
    assert_eq!(builders[0].moves_since_split, 0);
    assert_eq!(builders[0].direction, v(1, 0));
    assert_eq!(builders[2].direction, v(0, -1));
}

#[test]
fn a_double_split_spawns_both_sides() {
    let mut builders = two_builders();
    let keep = apply_action(&mut builders, 0, &city(), RoadBuilderAction::SplitTwice, 0);
    assert!(!keep);
    assert_eq!(builders.len(), 3);
    assert_eq!(builders[0].direction, v(0, 1));
    assert_eq!(builders[1].direction, v(0, -1));
    assert_eq!(builders[2].direction, v(0, 1));
    assert_eq!(builders[2].generation, 1);

    let mut builders = two_builders();
    let keep = apply_action(&mut builders, 0, &city(), RoadBuilderAction::SplitTwiceAndContinue, 0);
    assert!(keep);
    assert_eq!(builders.len(), 4);
    assert_eq!(builders[0].moves_since_split, 0);
    assert_eq!(builders[2].direction, v(0, -1));
    assert_eq!(builders[3].direction, v(0, 1));
}

#[test]
fn a_roll_below_the_stop_chance_stops_the_builder() {
    let builder = RoadBuilder::new(home(), v(13, 10), home(), v(1, 0), 0);
    let by_distance = |d: u32, _s: i32| (d * 10) as i32;
    assert!(stops_on_roll(&builder, &city(), 29, &by_distance));
    assert!(!stops_on_roll(&builder, &city(), 30, &by_distance));
    assert!(!stops_on_roll(&builder, &city(), 0, &|_d: u32, _s: i32| 0));
}

#[test]
fn a_step_back_from_the_last_chunk_column_returns() {
    let mut c = ChunkCursor { chunk_coord: OvermapChunkCoords(v(i32::MAX, 0)), local_pos: v(5, 5) };
    c.step_x(-1);
    assert_eq!(c.local_pos, v(4, 5));
    assert_eq!(c.chunk_coord, OvermapChunkCoords(v(i32::MAX, 0)));
    c.step_x(1);
    assert_eq!(c.local_pos, v(5, 5));
    assert_eq!(c.chunk_coord, OvermapChunkCoords(v(i32::MAX, 0)));
}
