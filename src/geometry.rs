use vstd::prelude::*;

verus! {

/// The fixed-point representation of 1.0: coordinates, texture coordinates and unit
/// normals are integers that count millionths.
pub const UNIT: i32 = 1_000_000;

/// A planar point in fixed-point coordinates.
#[derive(Clone, Copy, Debug, PartialEq, Eq, Structural)]
pub struct Point2 {
    pub x: i32,
    pub y: i32,
}

impl Point2 {
    pub fn new(x: i32, y: i32) -> (r: Point2)
        ensures
            r.x == x,
            r.y == y,
    {
        Point2 { x, y }
    }
}

/// A vector (or point) in space, in fixed-point coordinates.
#[derive(Clone, Copy, Debug, PartialEq, Eq, Structural)]
pub struct Vec3 {
    pub x: i32,
    pub y: i32,
    pub z: i32,
}

impl Vec3 {
    pub fn new(x: i32, y: i32, z: i32) -> (r: Vec3)
        ensures
            r.x == x,
            r.y == y,
            r.z == z,
    {
        Vec3 { x, y, z }
    }
}

/// The 2D cross product of `p - o` and `q - o`.
pub open spec fn cross(o: Point2, p: Point2, q: Point2) -> int {
    (p.x - o.x) * (q.y - o.y) - (p.y - o.y) * (q.x - o.x)
}

/// Whether the boundary turn `prev -> at -> next` is convex, for a counter-clockwise
/// boundary. A straight (colinear) turn is not convex.
pub open spec fn is_convex_turn(prev: Point2, at: Point2, next: Point2) -> bool {
    cross(at, prev, next) < 0
}

pub(crate) proof fn lemma_product_bound(a: int, b: int)
    requires
        -0x1_0000_0000 < a < 0x1_0000_0000,
        -0x1_0000_0000 < b < 0x1_0000_0000,
    ensures
        -0x1_0000_0000_0000_0000 < a * b < 0x1_0000_0000_0000_0000,
{
    assert(-0x1_0000_0000_0000_0000 < a * b < 0x1_0000_0000_0000_0000) by (nonlinear_arith)
        requires
            -0x1_0000_0000 < a < 0x1_0000_0000,
            -0x1_0000_0000 < b < 0x1_0000_0000,
    ;
}

/// The exact value of `cross(o, p, q)`.
pub fn cross_value(o: Point2, p: Point2, q: Point2) -> (r: i128)
    ensures
        r == cross(o, p, q),
{
    let px = p.x as i128 - o.x as i128;
    let py = p.y as i128 - o.y as i128;
    let qx = q.x as i128 - o.x as i128;
    let qy = q.y as i128 - o.y as i128;
    proof {
        lemma_product_bound(px as int, qy as int);
        lemma_product_bound(py as int, qx as int);
    }
    px * qy - py * qx
}

/// Decides `is_convex_turn(prev, at, next)`.
pub fn convex_turn(prev: Point2, at: Point2, next: Point2) -> (r: bool)
    ensures
        r == is_convex_turn(prev, at, next),
{
    cross_value(at, prev, next) < 0
}

} // verus!
