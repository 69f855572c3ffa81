use vstd::prelude::*;

verus! {

/// A point of the pixel-edge grid, in whole units.
#[derive(PartialEq, Eq, Structural, Clone, Copy, Debug)]
pub struct Point {
    pub x: i64,
    pub y: i64,
}

impl Point {
    pub fn new(x: i64, y: i64) -> (p: Point)
        ensures
            p.x == x,
            p.y == y,
    {
        Point { x, y }
    }

    pub fn default() -> (p: Point)
        ensures
            p.x == 0,
            p.y == 0,
    {
        Point { x: 0, y: 0 }
    }
}

/// The two points differ by one unit in exactly one coordinate.
pub open spec fn unit_step(p: Point, q: Point) -> bool {
    (p.x == q.x && (q.y - p.y == 1 || p.y - q.y == 1)) || (p.y == q.y && (q.x - p.x == 1 || p.x
        - q.x == 1))
}

pub open spec fn cross_spec(ux: int, uy: int, vx: int, vy: int) -> int {
    ux * vy - uy * vx
}

/// `u x v`, the signed area of the parallelogram spanned by `u` and `v`.
pub fn cross_product(u: Point, v: Point) -> (r: i64)
    requires
        -0x4000_0000 <= u.x <= 0x4000_0000,
        -0x4000_0000 <= u.y <= 0x4000_0000,
        -0x4000_0000 <= v.x <= 0x4000_0000,
        -0x4000_0000 <= v.y <= 0x4000_0000,
    ensures
        r == cross_spec(u.x as int, u.y as int, v.x as int, v.y as int),
{
    assert(-0x1000_0000_0000_0000 <= u.x * v.y <= 0x1000_0000_0000_0000) by (nonlinear_arith)
        requires
            -0x4000_0000 <= u.x <= 0x4000_0000,
            -0x4000_0000 <= v.y <= 0x4000_0000,
    ;
    assert(-0x1000_0000_0000_0000 <= u.y * v.x <= 0x1000_0000_0000_0000) by (nonlinear_arith)
        requires
            -0x4000_0000 <= u.y <= 0x4000_0000,
            -0x4000_0000 <= v.x <= 0x4000_0000,
    ;
    u.x * v.y - u.y * v.x
}

} // verus!
