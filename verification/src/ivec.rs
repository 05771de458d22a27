//! Two-dimensional integer vectors, held as plain `i32` pairs.
//!
//! Each operation is stated exactly over mathematical integers; the
//! preconditions rule out the machine overflows that would otherwise panic.
use vstd::prelude::*;
use vstd::arithmetic::div_mod::lemma_fundamental_div_mod_converse;

verus! {

/// An integer vector with `x` and `y` components.
#[derive(Debug, Clone, Copy, PartialEq, Eq, Hash, Structural)]
pub struct IVec2 {
    pub x: i32,
    pub y: i32,
}

/// True when `v` fits in an `i32`.
pub open spec fn fits_i32(v: int) -> bool {
    i32::MIN <= v <= i32::MAX
}

/// Absolute value over the integers.
pub open spec fn abs_int(v: int) -> int {
    if v < 0 { -v } else { v }
}

/// Sign over the integers: -1, 0 or 1.
pub open spec fn sign_int(v: int) -> int {
    if v > 0 { 1 } else if v < 0 { -1 } else { 0 }
}

/// The larger of two integers.
pub open spec fn max_int(a: int, b: int) -> int {
    if a > b { a } else { b }
}

/// Euclidean quotient of `a` by a positive `b`, as Rust's `i32::div_euclid` computes it.
fn div_euclid_pos(a: i32, b: i32) -> (q: i32)
    requires
        b > 0,
    ensures
        q == (a as int) / (b as int),
{
    if a >= 0 {
        a / b
    } else {
        let n: i32 = -(a + 1);
        let k: i32 = n / b;
        let r: i32 = n % b;
        proof {
            assert(n as int == k as int * b as int + r as int) by (nonlinear_arith)
                requires
                    n >= 0,
                    b > 0,
                    k == (n as int) / (b as int),
                    r == (n as int) % (b as int),
            {
                vstd::arithmetic::div_mod::lemma_fundamental_div_mod(n as int, b as int);
            }
            assert(a as int == (-k - 1) * b as int + (b - r - 1)) by (nonlinear_arith)
                requires
                    n as int == k as int * b as int + r as int,
                    n == -(a + 1),
            ;
            lemma_fundamental_div_mod_converse(a as int, b as int, -k - 1, b - r - 1);
        }
        -k - 1
    }
}

/// Euclidean remainder of `a` by a positive `b`, as Rust's `i32::rem_euclid` computes it.
fn rem_euclid_pos(a: i32, b: i32) -> (r: i32)
    requires
        b > 0,
    ensures
        r == (a as int) % (b as int),
        0 <= r < b,
{
    let q = div_euclid_pos(a, b);
    proof {
        vstd::arithmetic::div_mod::lemma_fundamental_div_mod(a as int, b as int);
        assert(q as int * b as int == a as int - (a as int) % (b as int)) by (nonlinear_arith)
            requires
                a as int == b as int * ((a as int) / (b as int)) + (a as int) % (b as int),
                q == (a as int) / (b as int),
        ;
    }
    let qb: i64 = q as i64 * b as i64;
    (a as i64 - qb) as i32
}

impl IVec2 {
    /// Builds a vector from its components.
    pub fn new(x: i32, y: i32) -> (r: IVec2)
        ensures
            r.x == x,
            r.y == y,
    {
        IVec2 { x, y }
    }

    /// The zero vector.
    pub fn zero() -> (r: IVec2)
        ensures
            r.x == 0,
            r.y == 0,
    {
        IVec2 { x: 0, y: 0 }
    }

    /// A vector with both components equal to `v`.
    pub fn splat(v: i32) -> (r: IVec2)
        ensures
            r.x == v,
            r.y == v,
    {
        IVec2 { x: v, y: v }
    }

    /// Component-wise sum.
    pub fn add(self, rhs: IVec2) -> (r: IVec2)
        requires
            fits_i32(self.x + rhs.x),
            fits_i32(self.y + rhs.y),
        ensures
            r.x == self.x + rhs.x,
            r.y == self.y + rhs.y,
    {
        IVec2 { x: self.x + rhs.x, y: self.y + rhs.y }
    }

    /// Component-wise difference.
    pub fn sub(self, rhs: IVec2) -> (r: IVec2)
        requires
            fits_i32(self.x - rhs.x),
            fits_i32(self.y - rhs.y),
        ensures
            r.x == self.x - rhs.x,
            r.y == self.y - rhs.y,
    {
        IVec2 { x: self.x - rhs.x, y: self.y - rhs.y }
    }

    /// Both components multiplied by `k`.
    pub fn scale(self, k: i32) -> (r: IVec2)
        requires
            fits_i32(self.x * k),
            fits_i32(self.y * k),
        ensures
            r.x == self.x * k,
            r.y == self.y * k,
    {
        IVec2 { x: self.x * k, y: self.y * k }
    }

    /// The components swapped.
    pub fn yx(self) -> (r: IVec2)
        ensures
            r.x == self.y,
            r.y == self.x,
    {
        IVec2 { x: self.y, y: self.x }
    }

    /// Component-wise absolute value.
    pub fn abs(self) -> (r: IVec2)
        requires
            self.x != i32::MIN,
            self.y != i32::MIN,
        ensures
            r.x == abs_int(self.x as int),
            r.y == abs_int(self.y as int),
    {
        IVec2 {
            x: if self.x < 0 { -self.x } else { self.x },
            y: if self.y < 0 { -self.y } else { self.y },
        }
    }

    /// Component-wise sign: -1, 0 or 1.
    pub fn signum(self) -> (r: IVec2)
        ensures
            r.x == sign_int(self.x as int),
            r.y == sign_int(self.y as int),
    {
        IVec2 {
            x: if self.x > 0 { 1 } else if self.x < 0 { -1 } else { 0 },
            y: if self.y > 0 { 1 } else if self.y < 0 { -1 } else { 0 },
        }
    }

    /// The larger component.
    pub fn max_element(self) -> (r: i32)
        ensures
            r == max_int(self.x as int, self.y as int),
    {
        if self.x > self.y { self.x } else { self.y }
    }

    /// The sum of the components.
    pub fn element_sum(self) -> (r: i32)
        requires
            fits_i32(self.x + self.y),
        ensures
            r == self.x + self.y,
    {
        self.x + self.y
    }

    /// The sum of the absolute component differences.
    pub fn manhattan_distance(self, rhs: IVec2) -> (r: u32)
        requires
            abs_int(self.x - rhs.x) + abs_int(self.y - rhs.y) <= u32::MAX,
        ensures
            r == abs_int(self.x - rhs.x) + abs_int(self.y - rhs.y),
    {
        let dx: i64 = self.x as i64 - rhs.x as i64;
        let dy: i64 = self.y as i64 - rhs.y as i64;
        let ax: i64 = if dx < 0 { -dx } else { dx };
        let ay: i64 = if dy < 0 { -dy } else { dy };
        (ax + ay) as u32
    }

    /// The larger of the absolute component differences.
    pub fn chebyshev_distance(self, rhs: IVec2) -> (r: u32)
        ensures
            r == max_int(abs_int(self.x - rhs.x), abs_int(self.y - rhs.y)),
    {
        let dx: i64 = self.x as i64 - rhs.x as i64;
        let dy: i64 = self.y as i64 - rhs.y as i64;
        let ax: i64 = if dx < 0 { -dx } else { dx };
        let ay: i64 = if dy < 0 { -dy } else { dy };
        if ax > ay { ax as u32 } else { ay as u32 }
    }

    /// Component-wise Euclidean quotient by a vector of positive divisors.
    pub fn div_euclid(self, rhs: IVec2) -> (r: IVec2)
        requires
            rhs.x > 0,
            rhs.y > 0,
        ensures
            r.x == (self.x as int) / (rhs.x as int),
            r.y == (self.y as int) / (rhs.y as int),
    {
        IVec2 { x: div_euclid_pos(self.x, rhs.x), y: div_euclid_pos(self.y, rhs.y) }
    }

    /// Component-wise Euclidean remainder by a vector of positive divisors.
    pub fn rem_euclid(self, rhs: IVec2) -> (r: IVec2)
        requires
            rhs.x > 0,
            rhs.y > 0,
        ensures
            r.x == (self.x as int) % (rhs.x as int),
            r.y == (self.y as int) % (rhs.y as int),
            0 <= r.x < rhs.x,
            0 <= r.y < rhs.y,
    {
        IVec2 { x: rem_euclid_pos(self.x, rhs.x), y: rem_euclid_pos(self.y, rhs.y) }
    }
}

} // verus!
