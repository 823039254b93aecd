//! Points and displacements on the integer grid.
//!
//! Coordinates are whole units. A displacement is wide enough to hold the
//! difference of any two points, and moving a point saturates at the ends of
//! the coordinate range, so every operation is total.

use vstd::prelude::*;

verus! {

/// A position in the plane.
#[derive(Clone, Copy, Debug, PartialEq, Eq, Structural)]
pub struct Pos2 {
    pub x: i32,
    pub y: i32,
}

/// A displacement between two positions.
#[derive(Clone, Copy, Debug, PartialEq, Eq, Structural)]
pub struct Vec2 {
    pub x: i64,
    pub y: i64,
}

/// The coordinate nearest to `v` that a position can hold.
pub open spec fn saturate(v: int) -> int {
    if v < i32::MIN as int {
        i32::MIN as int
    } else if v > i32::MAX as int {
        i32::MAX as int
    } else {
        v
    }
}

/// The square of the Euclidean distance between `a` and `b`.
pub open spec fn dist_sq(a: Pos2, b: Pos2) -> int {
    (a.x - b.x) * (a.x - b.x) + (a.y - b.y) * (a.y - b.y)
}

/// Where `p` lands when moved by `by`.
pub open spec fn moved(p: Pos2, by: Vec2) -> Pos2 {
    Pos2 { x: saturate(p.x + by.x) as i32, y: saturate(p.y + by.y) as i32 }
}

fn clamp_coord(v: i128) -> (r: i32)
    ensures
        r == saturate(v as int),
{
    if v < -2147483648 {
        -2147483648
    } else if v > 2147483647 {
        2147483647
    } else {
        v as i32
    }
}

fn square_diff(a: i32, b: i32) -> (r: u128)
    ensures
        r == (a - b) * (a - b),
        r <= 0xFFFF_FFFE_0000_0001,
{
    let d: i128 = a as i128 - b as i128;
    assert(0 <= d * d <= 0xFFFF_FFFE_0000_0001) by (nonlinear_arith)
        requires
            -0xFFFF_FFFF <= d <= 0xFFFF_FFFF,
    ;
    (d * d) as u128
}

impl Pos2 {
    pub fn new(x: i32, y: i32) -> (p: Pos2)
        ensures
            p == (Pos2 { x, y }),
    {
        Pos2 { x, y }
    }

    /// The origin.
    pub fn zero() -> (p: Pos2)
        ensures
            p == (Pos2 { x: 0, y: 0 }),
    {
        Pos2 { x: 0, y: 0 }
    }

    /// The displacement that leads from `other` to `self`.
    pub fn minus(self, other: Pos2) -> (d: Vec2)
        ensures
            d.x == self.x - other.x,
            d.y == self.y - other.y,
    {
        Vec2 { x: self.x as i64 - other.x as i64, y: self.y as i64 - other.y as i64 }
    }

    /// The position reached from `self` by `by`; each coordinate saturates.
    pub fn plus(self, by: Vec2) -> (p: Pos2)
        ensures
            p == moved(self, by),
    {
        Pos2 {
            x: clamp_coord(self.x as i128 + by.x as i128),
            y: clamp_coord(self.y as i128 + by.y as i128),
        }
    }

    /// The square of the Euclidean distance to `other`.
    pub fn distance_sq(self, other: Pos2) -> (d: u128)
        ensures
            d == dist_sq(self, other),
    {
        square_diff(self.x, other.x) + square_diff(self.y, other.y)
    }
}

impl Vec2 {
    pub fn new(x: i64, y: i64) -> (v: Vec2)
        ensures
            v == (Vec2 { x, y }),
    {
        Vec2 { x, y }
    }
}

} // verus!
