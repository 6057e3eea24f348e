use vstd::prelude::*;

verus! {

/// A vector with two components.
#[derive(Clone, Copy, Debug, PartialEq, Eq, Structural)]
pub struct Vec2D<T> {
    pub x: T,
    pub y: T,
}

impl<T> Vec2D<T> {
    pub fn new(x: T, y: T) -> (r: Self)
        ensures
            r.x == x,
            r.y == y,
    {
        Vec2D { x, y }
    }
}

/// True when `v` fits in an `i64`.
pub open spec fn fits_i64(v: int) -> bool {
    i64::MIN <= v <= i64::MAX
}

impl Vec2D<i64> {
    pub fn sub_vec(&self, v2: &Vec2D<i64>) -> (r: Vec2D<i64>)
        requires
            fits_i64(self.x - v2.x),
            fits_i64(self.y - v2.y),
        ensures
            r.x == self.x - v2.x,
            r.y == self.y - v2.y,
    {
        Vec2D::new(self.x - v2.x, self.y - v2.y)
    }

    pub fn add_vec(&self, v2: &Vec2D<i64>) -> (r: Vec2D<i64>)
        requires
            fits_i64(self.x + v2.x),
            fits_i64(self.y + v2.y),
        ensures
            r.x == self.x + v2.x,
            r.y == self.y + v2.y,
    {
        Vec2D::new(self.x + v2.x, self.y + v2.y)
    }

    pub fn mult_scalar(&self, s: i64) -> (r: Vec2D<i64>)
        requires
            fits_i64(s * self.x),
            fits_i64(s * self.y),
        ensures
            r.x == s * self.x,
            r.y == s * self.y,
    {
        Vec2D::new(s * self.x, s * self.y)
    }

    /// The squared length `x² + y²` (no square root is taken).
    pub fn magnitude(&self) -> (r: i64)
        requires
            fits_i64(self.x * self.x + self.y * self.y),
        ensures
            r == self.x * self.x + self.y * self.y,
    {
        proof {
            assert(0 <= self.x * self.x) by (nonlinear_arith);
            assert(0 <= self.y * self.y) by (nonlinear_arith);
        }
        self.x * self.x + self.y * self.y
    }

    /// The squared distance between two points.
    pub fn distance(&self, v2: &Vec2D<i64>) -> (r: i64)
        requires
            fits_i64(self.x - v2.x),
            fits_i64(self.y - v2.y),
            fits_i64((self.x - v2.x) * (self.x - v2.x) + (self.y - v2.y) * (self.y - v2.y)),
        ensures
            r == (self.x - v2.x) * (self.x - v2.x) + (self.y - v2.y) * (self.y - v2.y),
    {
        self.sub_vec(v2).magnitude()
    }

    /// The dot product.
    pub fn dot(&self, v2: &Vec2D<i64>) -> (r: i64)
        requires
            fits_i64(self.x * v2.x),
            fits_i64(self.y * v2.y),
            fits_i64(self.x * v2.x + self.y * v2.y),
        ensures
            r == self.x * v2.x + self.y * v2.y,
    {
        self.x * v2.x + self.y * v2.y
    }

    /// Converts to pixel coordinates, saturating at both ends of `usize`.
    pub fn usize(&self) -> (r: Vec2D<usize>)
        ensures
            r.x == clamp_usize(self.x as int),
            r.y == clamp_usize(self.y as int),
    {
        Vec2D::new(to_usize_saturating(self.x), to_usize_saturating(self.y))
    }
}

/// `v` clamped to the range of `usize`.
pub open spec fn clamp_usize(v: int) -> int {
    if v < 0 {
        0
    } else if v > usize::MAX {
        usize::MAX as int
    } else {
        v
    }
}

fn to_usize_saturating(v: i64) -> (r: usize)
    ensures
        r == clamp_usize(v as int),
{
    if v < 0 {
        0
    } else if (v as u64) > (usize::MAX as u64) {
        usize::MAX
    } else {
        v as usize
    }
}

} // verus!
