use vstd::prelude::*;

verus! {

/// Coordinates are measured in milli-units: one thousandth of a world unit.
/// Keeping every coordinate inside this bound keeps all distance arithmetic
/// far away from overflow.
pub const COORD_LIMIT: i64 = 1_000_000_000_000;

/// A fixed point of the plane, in milli-units.
#[derive(Copy, Clone, Debug)]
pub struct Position {
    pub x: i64,
    pub y: i64,
}

/// Both coordinates lie inside the arena bound.
pub open spec fn coord_in_range(v: int) -> bool {
    -COORD_LIMIT <= v <= COORD_LIMIT
}

pub open spec fn position_in_range(p: Position) -> bool {
    coord_in_range(p.x as int) && coord_in_range(p.y as int)
}

/// The square of the Euclidean distance between two points given by their
/// coordinates. Distances are only ever compared, so the square is all the
/// library needs.
pub open spec fn dist_sq_coords(ax: int, ay: int, bx: int, by: int) -> int {
    (ax - bx) * (ax - bx) + (ay - by) * (ay - by)
}

/// The square of the Euclidean distance between two points.
pub open spec fn dist_sq(a: Position, b: Position) -> int {
    dist_sq_coords(a.x as int, a.y as int, b.x as int, b.y as int)
}

impl Position {
    /// Creates a position from milli-unit coordinates.
    pub fn new(x: i64, y: i64) -> (p: Position)
        requires
            coord_in_range(x as int),
            coord_in_range(y as int),
        ensures
            p.x == x,
            p.y == y,
    {
        Position { x, y }
    }
}

/// The squared distance between two in-range positions, computed exactly.
pub fn distance_squared(a: &Position, b: &Position) -> (r: i128)
    requires
        position_in_range(*a),
        position_in_range(*b),
    ensures
        r == dist_sq(*a, *b),
        r >= 0,
{
    let dx: i128 = a.x as i128 - b.x as i128;
    let dy: i128 = a.y as i128 - b.y as i128;
    proof {
        assert(dx * dx >= 0) by (nonlinear_arith);
        assert(dy * dy >= 0) by (nonlinear_arith);
        assert(dx * dx <= 4 * (COORD_LIMIT as int) * (COORD_LIMIT as int)) by (nonlinear_arith)
            requires -2 * (COORD_LIMIT as int) <= dx <= 2 * (COORD_LIMIT as int);
        assert(dy * dy <= 4 * (COORD_LIMIT as int) * (COORD_LIMIT as int)) by (nonlinear_arith)
            requires -2 * (COORD_LIMIT as int) <= dy <= 2 * (COORD_LIMIT as int);
    }
    dx * dx + dy * dy
}

} // verus!
