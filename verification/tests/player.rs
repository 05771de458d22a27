use roguemap::components::position::Position;
use roguemap::ivec::IVec2;
use roguemap::player::player::{
    chunk_centre_offset, chunk_screen_offset, entity_screen_offset, player_input, try_move_player,
    NumpadKeys, WantsToMove,
};
use roguemap::systems::entity_renderer::{sprite_pixel_position, sprite_scale};

fn v(x: i32, y: i32) -> IVec2 {
    IVec2 { x, y }
}

fn keys(held: &[u8]) -> NumpadKeys {
    NumpadKeys {
        n1: held.contains(&1),
        n2: held.contains(&2),
        n3: held.contains(&3),
        n4: held.contains(&4),
        n6: held.contains(&6),
        n7: held.contains(&7),
        n8: held.contains(&8),
        n9: held.contains(&9),
    }
}

#[test]
fn numpad_directions() {
    assert_eq!(player_input(&keys(&[])).direction, v(0, 0));
    assert_eq!(player_input(&keys(&[8])).direction, v(0, 1));
    assert_eq!(player_input(&keys(&[2])).direction, v(0, -1));
    assert_eq!(player_input(&keys(&[4])).direction, v(-1, 0));
    assert_eq!(player_input(&keys(&[6])).direction, v(1, 0));
    assert_eq!(player_input(&keys(&[7])).direction, v(-1, 1));
    assert_eq!(player_input(&keys(&[9])).direction, v(1, 1));
    assert_eq!(player_input(&keys(&[1])).direction, v(-1, -1));
    assert_eq!(player_input(&keys(&[3])).direction, v(1, -1));
}

#[test]
fn opposite_keys_cancel() {
    assert_eq!(player_input(&keys(&[8, 2])).direction, v(0, 0));
    assert_eq!(player_input(&keys(&[4, 6])).direction, v(0, 0));
    assert_eq!(player_input(&keys(&[7, 3])).direction, v(0, 0));
    assert_eq!(player_input(&keys(&[7, 8, 9])).direction, v(0, 1));
}

#[test]
fn moving_adds_the_step() {
    let mut p = Position(v(1, 1));
    try_move_player(&mut p, &WantsToMove { direction: v(-1, 1) });
    assert_eq!(p.0, v(0, 2));
    try_move_player(&mut p, &WantsToMove { direction: v(0, 0) });
    assert_eq!(p.0, v(0, 2));
}

#[test]
fn screen_offsets_in_pixels() {
    assert_eq!(chunk_screen_offset(v(0, 0), v(0, 0)), v(0, 0));
    assert_eq!(chunk_screen_offset(v(1, -1), v(3, 4)), v((128 - 3) * 8, (-128 - 4) * 8));
    assert_eq!(entity_screen_offset(v(5, 5), v(1, 1)), v(32, 32));
    assert_eq!(entity_screen_offset(v(1, 1), v(5, 5)), v(-32, -32));
    assert_eq!(chunk_centre_offset(), 512);
}

#[test]
fn sprites() {
    assert_eq!(sprite_pixel_position(v(5, -2)), v(40, -16));
    assert_eq!(sprite_scale(), 1);
}
