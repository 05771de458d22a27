//! Grid helpers: flat indices and the coordinates around a point.
use vstd::prelude::*;
use crate::ivec::{IVec2, fits_i32, abs_int};

verus! {

/// Convert an x,y coordinate into an index based on some logical max bounds.
///
/// The coordinates are taken as `usize` the way `as` converts them, so a
/// negative coordinate wraps around; the index must fit a `usize`.
pub fn xy_idx(x: i32, y: i32, max_bounds: usize) -> (r: usize)
    requires
        (y as usize) * max_bounds + (x as usize) <= usize::MAX,
    ensures
        r == (y as usize) * max_bounds + (x as usize),
        x >= 0 && y >= 0 ==> r == y * max_bounds + x,
{
    let yy = y as usize;
    let xx = x as usize;
    proof {
        assert(yy as int * max_bounds as int <= usize::MAX) by (nonlinear_arith)
            requires
                yy * max_bounds + xx <= usize::MAX,
                xx >= 0,
        ;
    }
    (yy * max_bounds) + xx
}

/// Within a `bounds`-wide row-major grid, distinct in-bounds coordinates have
/// distinct indices, and each index is below `bounds * bounds`.
pub proof fn lemma_xy_idx_injective(x1: int, y1: int, x2: int, y2: int, bounds: int)
    requires
        0 <= x1 < bounds,
        0 <= y1 < bounds,
        0 <= x2 < bounds,
        0 <= y2 < bounds,
    ensures
        y1 * bounds + x1 < bounds * bounds,
        (y1 * bounds + x1 == y2 * bounds + x2) ==> (x1 == x2 && y1 == y2),
{
    assert(y1 * bounds + x1 < bounds * bounds) by (nonlinear_arith)
        requires
            0 <= x1 < bounds,
            0 <= y1 < bounds,
    ;
    if y1 * bounds + x1 == y2 * bounds + x2 {
        if y1 < y2 {
            assert(y1 * bounds + x1 < y2 * bounds + x2) by (nonlinear_arith)
                requires
                    y1 < y2,
                    0 <= x1 < bounds,
                    0 <= x2,
            ;
        } else if y2 < y1 {
            assert(y2 * bounds + x2 < y1 * bounds + x1) by (nonlinear_arith)
                requires
                    y2 < y1,
                    0 <= x2 < bounds,
                    0 <= x1,
            ;
        }
    }
}

/// The width of the square of radius `r`.
pub open spec fn square_width(r: int) -> int {
    2 * r + 1
}

/// The `k`-th cell of the square of radius `r` around `from`, counting rows
/// from the lowest `dy` and, within a row, from the lowest `dx`.
pub open spec fn square_cell(from: IVec2, r: int, k: int) -> IVec2 {
    IVec2 {
        x: (from.x + k % square_width(r) - r) as i32,
        y: (from.y + k / square_width(r) - r) as i32,
    }
}

/// Whether cell `c` of the square of radius `r` around `from` is kept: every
/// cell, or with `border_only` only those on the outer ring.
pub open spec fn square_keeps(from: IVec2, r: int, border_only: bool, c: IVec2) -> bool {
    !border_only || abs_int(c.x - from.x) == r || abs_int(c.y - from.y) == r
}

/// The kept cells among the first `k` cells of the square, in order.
pub open spec fn square_coords(from: IVec2, r: int, border_only: bool, k: int) -> Seq<IVec2>
    decreases k,
{
    if k <= 0 {
        Seq::empty()
    } else {
        let prev = square_coords(from, r, border_only, k - 1);
        let c = square_cell(from, r, k - 1);
        if square_keeps(from, r, border_only, c) {
            prev.push(c)
        } else {
            prev
        }
    }
}

/// All coordinates of the square of radius `r` around `from`, or its ring.
pub open spec fn square_around(from: IVec2, r: int, border_only: bool) -> Seq<IVec2> {
    if r < 0 {
        Seq::empty()
    } else {
        square_coords(from, r, border_only, square_width(r) * square_width(r))
    }
}

/// Returns all coordinates around [from_coord](IVec2) in a square [radius](i32).
/// Setting [border_only](bool) to true will only return the outer ring of coordinates.
pub fn get_coords_in_square_radius(from_coord: IVec2, radius: i32, border_only: bool) -> (coords: Vec<IVec2>)
    requires
        radius < i32::MAX,
        radius < 0 || (fits_i32(from_coord.x - radius) && fits_i32(from_coord.x + radius)
            && fits_i32(from_coord.y - radius) && fits_i32(from_coord.y + radius)),
    ensures
        coords@ == square_around(from_coord, radius as int, border_only),
{
    let mut coords: Vec<IVec2> = Vec::new();
    if radius < 0 {
        return coords;
    }
    let ghost w = square_width(radius as int);
    let mut dy: i32 = -radius;
    assert((dy + radius) * w == 0) by (nonlinear_arith)
        requires
            dy + radius == 0,
    ;
    while dy <= radius
        invariant
            0 <= radius < i32::MAX,
            w == square_width(radius as int),
            -radius <= dy <= radius + 1,
            fits_i32(from_coord.x - radius) && fits_i32(from_coord.x + radius),
            fits_i32(from_coord.y - radius) && fits_i32(from_coord.y + radius),
            coords@ == square_coords(from_coord, radius as int, border_only, (dy + radius) * w),
        decreases radius + 1 - dy,
    {
        let mut dx: i32 = -radius;
        while dx <= radius
            invariant
                0 <= radius < i32::MAX,
                w == square_width(radius as int),
                -radius <= dy <= radius,
                -radius <= dx <= radius + 1,
                fits_i32(from_coord.x - radius) && fits_i32(from_coord.x + radius),
                fits_i32(from_coord.y - radius) && fits_i32(from_coord.y + radius),
                coords@ == square_coords(from_coord, radius as int, border_only, (dy + radius) * w + (dx + radius)),
            decreases radius + 1 - dx,
        {
            let ghost k = (dy + radius) * w + (dx + radius);
            proof {
                let r = radius as int;
                assert(k % w == dx + r && k / w == dy + r) by {
                    vstd::arithmetic::div_mod::lemma_fundamental_div_mod_converse(k, w, dy + r, dx + r);
                }
            }
            let nx = from_coord.x + dx;
            let ny = from_coord.y + dy;
            let ax: i32 = if dx < 0 { -dx } else { dx };
            let ay: i32 = if dy < 0 { -dy } else { dy };
            if border_only && (ax != radius && ay != radius) {
                dx += 1;
                continue;
            }
            coords.push(IVec2 { x: nx, y: ny });
            dx += 1;
        }
        proof {
            assert((dy + radius) * w + (radius + 1 + radius) == (dy + 1 + radius) * w) by (nonlinear_arith)
                requires
                    w == 2 * radius + 1,
            ;
        }
        dy += 1;
    }
    proof {
        assert((radius + 1 + radius) * w == w * w);
    }
    coords
}

/// The four cardinal neighbours of `c`: right, left, up, down.
pub open spec fn cardinal_neighbours(c: IVec2) -> Seq<IVec2> {
    seq![
        IVec2 { x: (c.x + 1) as i32, y: c.y },
        IVec2 { x: (c.x - 1) as i32, y: c.y },
        IVec2 { x: c.x, y: (c.y + 1) as i32 },
        IVec2 { x: c.x, y: (c.y - 1) as i32 },
    ]
}

/// Returns the neighbouring coordinates around [from_coord](IVec2) in each cardinal direction.
pub fn get_neighbouring_cardinal_coordinates(from_coord: IVec2) -> (r: Vec<IVec2>)
    requires
        i32::MIN < from_coord.x < i32::MAX,
        i32::MIN < from_coord.y < i32::MAX,
    ensures
        r@ == cardinal_neighbours(from_coord),
{
    let r = vec![
        from_coord.add(IVec2 { x: 1, y: 0 }),
        from_coord.add(IVec2 { x: -1, y: 0 }),
        from_coord.add(IVec2 { x: 0, y: 1 }),
        from_coord.add(IVec2 { x: 0, y: -1 }),
    ];
    proof {
        assert(r@ =~= cardinal_neighbours(from_coord));
    }
    r
}

/// Without `border_only`, the first `k` cells of the square are kept in
/// order: the result has `k` elements and the `j`-th is the `j`-th cell.
pub proof fn lemma_square_full(from: IVec2, r: int, k: int)
    requires
        0 <= k,
    ensures
        square_coords(from, r, false, k).len() == k,
        forall|j: int| 0 <= j < k ==> #[trigger] square_coords(from, r, false, k)[j] == square_cell(from, r, j),
    decreases k,
{
    if k > 0 {
        lemma_square_full(from, r, k - 1);
    }
}

/// Every cell of the square of radius `r` around `from` lies within `r` of
/// `from` along both axes, and every such offset is one of its cells.
pub proof fn lemma_square_cell_offsets(from: IVec2, r: int, j: int)
    requires
        0 <= r,
        0 <= j < square_width(r) * square_width(r),
        fits_i32(from.x - r) && fits_i32(from.x + r),
        fits_i32(from.y - r) && fits_i32(from.y + r),
    ensures
        abs_int(square_cell(from, r, j).x - from.x) <= r,
        abs_int(square_cell(from, r, j).y - from.y) <= r,
        square_cell(from, r, j).x == from.x + j % square_width(r) - r,
        square_cell(from, r, j).y == from.y + j / square_width(r) - r,
{
    let w = square_width(r);
    vstd::arithmetic::div_mod::lemma_fundamental_div_mod(j, w);
    assert(0 <= j / w < w) by {
        vstd::arithmetic::div_mod::lemma_div_is_ordered(0, j, w);
        vstd::arithmetic::div_mod::lemma_div_is_ordered(j, w * w - 1, w);
        assert(w * w - 1 == (w - 1) * w + (w - 1)) by (nonlinear_arith);
        vstd::arithmetic::div_mod::lemma_fundamental_div_mod_converse(w * w - 1, w, w - 1, w - 1);
    }
}

/// The offset `(dx, dy)`, each within `r`, is cell `(dy + r) * w + (dx + r)`
/// of the square of radius `r`.
pub proof fn lemma_square_cell_of_offset(from: IVec2, r: int, dx: int, dy: int)
    requires
        0 <= r,
        -r <= dx <= r,
        -r <= dy <= r,
        fits_i32(from.x - r) && fits_i32(from.x + r),
        fits_i32(from.y - r) && fits_i32(from.y + r),
    ensures
        0 <= (dy + r) * square_width(r) + (dx + r) < square_width(r) * square_width(r),
        square_cell(from, r, (dy + r) * square_width(r) + (dx + r)) == (IVec2 { x: (from.x + dx) as i32, y: (from.y + dy) as i32 }),
{
    let w = square_width(r);
    let k = (dy + r) * w + (dx + r);
    vstd::arithmetic::div_mod::lemma_fundamental_div_mod_converse(k, w, dy + r, dx + r);
    assert(0 <= k < w * w) by (nonlinear_arith)
        requires
            k == (dy + r) * w + (dx + r),
            0 <= dy + r < w,
            0 <= dx + r < w,
    ;
}

} // verus!
