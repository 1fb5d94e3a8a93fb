//! World-space points, grid cells, and the shared integer arithmetic
//! (truncating division, squared distance) that the other modules build on.

use vstd::prelude::*;

verus! {

/// All world coordinates handed to this crate are kept within this bound so
/// that squared distances and the fallback-path offsets fit in `i64`.
pub const WORLD_LIMIT: i64 = 1_000_000_000;

/// Waypoints produced by the search may exceed `WORLD_LIMIT` by the largest
/// fallback offset, so distance computations admit this slightly wider bound.
pub const POINT_LIMIT: i64 = 1_000_000_150;

/// A position in continuous world space, in integer world units.
#[derive(Clone, Copy, PartialEq, Eq, Structural, Debug)]
pub struct Point {
    pub x: i64,
    pub y: i64,
}

/// A cell of the occupancy grid, addressed by (column, row).
#[derive(Clone, Copy, PartialEq, Eq, Structural, Debug)]
pub struct Cell {
    pub x: i64,
    pub y: i64,
}

/// The point lies within the coordinate bound accepted from callers.
pub open spec fn point_in_world(p: Point) -> bool {
    -WORLD_LIMIT <= p.x <= WORLD_LIMIT && -WORLD_LIMIT <= p.y <= WORLD_LIMIT
}

/// The point lies within the slightly wider bound that waypoints satisfy.
pub open spec fn point_in_range(p: Point) -> bool {
    -POINT_LIMIT <= p.x <= POINT_LIMIT && -POINT_LIMIT <= p.y <= POINT_LIMIT
}

/// Two cells are 4-connected neighbours: they differ by one step along
/// exactly one axis.
pub open spec fn adjacent(a: Cell, b: Cell) -> bool {
    (a.x == b.x && (a.y == b.y + 1 || a.y == b.y - 1)) || (a.y == b.y && (a.x == b.x + 1
        || a.x == b.x - 1))
}

/// Division that truncates toward zero, as Rust's casts and `/` do; this is
/// the rounding the world-to-grid transform deliberately keeps, even for
/// negative coordinates.
pub open spec fn div_trunc_spec(a: int, b: int) -> int
    recommends
        b > 0,
{
    if a >= 0 {
        a / b
    } else {
        -((-a) / b)
    }
}

/// Truncating division on machine integers.
pub fn div_trunc(a: i64, b: i64) -> (r: i64)
    requires
        b > 0,
        a > i64::MIN,
    ensures
        r == div_trunc_spec(a as int, b as int),
        a >= 0 ==> 0 <= r <= a,
        a < 0 ==> a <= r <= 0,
{
    if a >= 0 {
        proof {
            vstd::arithmetic::div_mod::lemma_div_pos_is_pos(a as int, b as int);
            vstd::arithmetic::div_mod::lemma_div_is_ordered_by_denominator(a as int, 1, b as int);
        }
        a / b
    } else {
        proof {
            vstd::arithmetic::div_mod::lemma_div_pos_is_pos(-a as int, b as int);
            vstd::arithmetic::div_mod::lemma_div_is_ordered_by_denominator(-a as int, 1, b as int);
        }
        -((-a) / b)
    }
}

/// The squared Euclidean distance between two points.
pub open spec fn dist_sq_spec(a: Point, b: Point) -> int {
    (a.x - b.x) * (a.x - b.x) + (a.y - b.y) * (a.y - b.y)
}

/// Squared distance between two in-range points; comparisons against a
/// squared threshold stand in for the floating-point distance checks of a
/// continuous-space implementation.
pub fn dist_sq(a: Point, b: Point) -> (r: i64)
    requires
        point_in_range(a),
        point_in_range(b),
    ensures
        r == dist_sq_spec(a, b),
{
    let dx: i64 = a.x - b.x;
    let dy: i64 = a.y - b.y;
    proof {
        assert(dx * dx + dy * dy <= 2 * (2 * POINT_LIMIT) * (2 * POINT_LIMIT)
            && dx * dx >= 0 && dy * dy >= 0) by (nonlinear_arith)
            requires
                -2 * POINT_LIMIT <= dx <= 2 * POINT_LIMIT,
                -2 * POINT_LIMIT <= dy <= 2 * POINT_LIMIT,
        ;
    }
    dx * dx + dy * dy
}

} // verus!
