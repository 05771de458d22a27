use roguemap::ivec::IVec2;
use roguemap::utils::{get_coords_in_square_radius, get_neighbouring_cardinal_coordinates, xy_idx};

fn v(x: i32, y: i32) -> IVec2 {
    IVec2 { x, y }
}

#[test]
fn xy_idx_is_row_major() {
    assert_eq!(xy_idx(0, 0, 128), 0);
    assert_eq!(xy_idx(5, 0, 128), 5);
    assert_eq!(xy_idx(0, 1, 128), 128);
    assert_eq!(xy_idx(127, 127, 128), 16383);
    assert_eq!(xy_idx(3, 2, 512), 1027);
}

#[test]
fn xy_idx_wraps_negative_coordinates() {
    assert_eq!(xy_idx(-1, 0, 5), usize::MAX);
    assert_eq!(xy_idx(-1, 1, 5), 4);
}

#[test]
fn xy_idx_distinct_cells_distinct_indices() {
    let mut seen = std::collections::HashSet::new();
    for y in 0..16 {
        for x in 0..16 {
            let i = xy_idx(x, y, 16);
            assert!(i < 256);
            assert!(seen.insert(i));
        }
    }
    assert_eq!(seen.len(), 256);
}

#[test]
fn square_radius_one_rows_from_the_bottom() {
    let coords = get_coords_in_square_radius(v(10, 20), 1, false);
    assert_eq!(
        coords,
        vec![
            v(9, 19), v(10, 19), v(11, 19),
            v(9, 20), v(10, 20), v(11, 20),
            v(9, 21), v(10, 21), v(11, 21),
        ]
    );
}

#[test]
fn square_radius_two_has_twenty_five_distinct_cells() {
    let coords = get_coords_in_square_radius(v(0, 0), 2, false);
    assert_eq!(coords.len(), 25);
    for dy in -2..=2 {
        for dx in -2..=2 {
            assert!(coords.contains(&v(dx, dy)));
        }
    }
}

#[test]
fn square_border_only_keeps_the_ring() {
    let ring = get_coords_in_square_radius(v(0, 0), 1, true);
    assert_eq!(ring.len(), 8);
    assert!(!ring.contains(&v(0, 0)));
    let ring2 = get_coords_in_square_radius(v(3, 3), 2, true);
    assert_eq!(ring2.len(), 16);
    for c in &ring2 {
        assert!((c.x - 3).abs() == 2 || (c.y - 3).abs() == 2);
    }
}

#[test]
fn square_radius_zero_and_negative() {
    assert_eq!(get_coords_in_square_radius(v(4, -4), 0, false), vec![v(4, -4)]);
    assert_eq!(get_coords_in_square_radius(v(4, -4), 0, true), vec![v(4, -4)]);
    assert!(get_coords_in_square_radius(v(4, -4), -1, false).is_empty());
}

#[test]
fn cardinal_neighbours_in_order() {
    assert_eq!(
        get_neighbouring_cardinal_coordinates(v(2, -3)),
        vec![v(3, -3), v(1, -3), v(2, -2), v(2, -4)]
    );
}

#[test]
fn ivec_arithmetic() {
    assert_eq!(v(1, 2).add(v(3, -5)), v(4, -3));
    assert_eq!(v(1, 2).sub(v(3, -5)), v(-2, 7));
    assert_eq!(v(1, -2).scale(-3), v(-3, 6));
    assert_eq!(v(1, -2).yx(), v(-2, 1));
    assert_eq!(v(-7, 3).abs(), v(7, 3));
    assert_eq!(v(-7, 0).signum(), v(-1, 0));
    assert_eq!(v(-7, 3).max_element(), 3);
    assert_eq!(v(-7, 3).element_sum(), -4);
    assert_eq!(v(1, 2).manhattan_distance(v(-2, 6)), 7);
    assert_eq!(v(1, 2).chebyshev_distance(v(-2, 6)), 4);
    assert_eq!(IVec2::splat(4), v(4, 4));
    assert_eq!(IVec2::zero(), v(0, 0));
    assert_eq!(IVec2::new(3, 9), v(3, 9));
}

#[test]
fn ivec_euclidean_division() {
    assert_eq!(v(-1, 129).div_euclid(v(128, 128)), v(-1, 1));
    assert_eq!(v(-1, 129).rem_euclid(v(128, 128)), v(127, 1));
    assert_eq!(v(-128, 127).div_euclid(v(128, 128)), v(-1, 0));
    assert_eq!(v(-128, 127).rem_euclid(v(128, 128)), v(0, 127));
    assert_eq!(v(-129, 0).div_euclid(v(128, 128)), v(-2, 0));
}
