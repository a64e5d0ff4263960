//! The search's cost model, in fixed-point integer units: 10 per
//! axis-aligned step and 14 per diagonal step (scaled unit and root-two
//! costs), plus a synthetic digging surcharge for entering a solid cell.
//! The surcharge grows with the overall trip distance, up to double the
//! base dig cost: committing to digging is priced more attractively the
//! more hopeless direct routing is. The heuristic is straight-line cell
//! distance scaled by 10, which never overestimates the true grid cost.

use vstd::prelude::*;

use crate::grid::GridPos;
use crate::grid::cell_dist_sq;
use crate::grid::valid_cell;
use crate::math::is_isqrt;
use crate::math::isqrt;

verus! {

/// Cost of one axis-aligned step between adjacent cells.
pub const MOVE_COST_STRAIGHT: i64 = 10;

/// Cost of one diagonal step between adjacent cells.
pub const MOVE_COST_DIAGONAL: i64 = 14;

/// Base surcharge for stepping into a solid cell.
pub const BASE_DIG_COST: i64 = 10;

/// Longest start-to-goal distance, in world units, for which digging
/// straight toward the goal is preferred over routing.
pub const MAX_DIG_DISTANCE: i64 = 50;

/// The integer square root, as a mathematical function.
pub open spec fn sqrt_floor(n: int) -> int {
    choose|r: int| is_isqrt(n, r)
}

/// The integer square root is unique: there is exactly one `r` with
/// `r * r <= n < (r + 1) * (r + 1)`.
pub proof fn lemma_isqrt_unique(n: int, r1: int, r2: int)
    requires
        is_isqrt(n, r1),
        is_isqrt(n, r2),
    ensures
        r1 == r2,
{
    assert(r1 == r2) by (nonlinear_arith)
        requires
            0 <= r1 && r1 * r1 <= n && n < (r1 + 1) * (r1 + 1),
            0 <= r2 && r2 * r2 <= n && n < (r2 + 1) * (r2 + 1),
    ;
}

/// A witness pins `sqrt_floor` down.
pub proof fn lemma_sqrt_floor(n: int, r: int)
    requires
        is_isqrt(n, r),
    ensures
        sqrt_floor(n) == r,
{
    let w = choose|w: int| is_isqrt(n, w);
    lemma_isqrt_unique(n, w, r);
}

/// Whether a trip of squared cell distance `d2` is within the direct-dig
/// threshold: the straight-line distance in world units is at most
/// `MAX_DIG_DISTANCE`.
pub open spec fn within_direct_dig(d2: int) -> bool {
    64 * d2 <= MAX_DIG_DISTANCE * MAX_DIG_DISTANCE
}

/// Cost of moving between two adjacent cells, ignoring terrain.
pub open spec fn spec_move_cost(a: GridPos, b: GridPos) -> int {
    if a.x != b.x && a.y != b.y {
        MOVE_COST_DIAGONAL as int
    } else {
        MOVE_COST_STRAIGHT as int
    }
}

/// The digging surcharge for a trip of squared cell distance `trip_d2`:
/// `BASE_DIG_COST` scaled by one plus the ratio of the trip's world
/// distance to `MAX_DIG_DISTANCE`, the ratio capped at one.
pub open spec fn spec_dig_cost(trip_d2: int) -> int {
    if !within_direct_dig(trip_d2) {
        2 * BASE_DIG_COST as int
    } else {
        BASE_DIG_COST as int + sqrt_floor(64 * trip_d2) / 5
    }
}

/// Cost of one search step from `a` into adjacent cell `b`: the move cost,
/// plus the digging surcharge when `b` is solid.
pub open spec fn spec_step_cost(a: GridPos, b: GridPos, diggable: bool, trip_d2: int) -> int {
    spec_move_cost(a, b) + if diggable {
        spec_dig_cost(trip_d2)
    } else {
        0
    }
}

/// Cost of moving between two adjacent cells, ignoring terrain.
pub fn move_cost(a: GridPos, b: GridPos) -> (r: i64)
    ensures
        r == spec_move_cost(a, b),
        r == 10 || r == 14,
{
    if a.x != b.x && a.y != b.y {
        MOVE_COST_DIAGONAL
    } else {
        MOVE_COST_STRAIGHT
    }
}

/// The digging surcharge for a trip of squared cell distance `trip_d2`.
pub fn dig_cost(trip_d2: i64) -> (r: i64)
    requires
        0 <= trip_d2 <= 125_000_000_000,
    ensures
        r == spec_dig_cost(trip_d2 as int),
        10 <= r <= 20,
{
    if 64 * trip_d2 > MAX_DIG_DISTANCE * MAX_DIG_DISTANCE {
        2 * BASE_DIG_COST
    } else {
        let s = isqrt((64 * trip_d2) as u64);
        proof {
            lemma_sqrt_floor(64 * trip_d2 as int, s as int);
            assert(s * s <= 2500 ==> s <= 50) by (nonlinear_arith);
        }
        BASE_DIG_COST + (s as i64) / 5
    }
}

/// Cost of one search step from `a` into adjacent cell `b`, as a pure
/// function of the local tile state and the overall trip distance.
pub fn step_cost(a: GridPos, b: GridPos, diggable: bool, trip_d2: i64) -> (r: i64)
    requires
        0 <= trip_d2 <= 125_000_000_000,
    ensures
        r == spec_step_cost(a, b, diggable, trip_d2 as int),
        10 <= r <= 34,
{
    let m = move_cost(a, b);
    if diggable {
        m + dig_cost(trip_d2)
    } else {
        m
    }
}

/// The heuristic: straight-line cell distance to the goal, scaled by 10 to
/// match the move-cost units (the floor of ten times the Euclidean cell
/// distance, computed exactly on integers).
pub fn heuristic(c: GridPos, goal: GridPos) -> (h: i64)
    requires
        valid_cell(c),
        valid_cell(goal),
    ensures
        is_isqrt(100 * cell_dist_sq(c, goal), h as int),
        h == sqrt_floor(100 * cell_dist_sq(c, goal)),
        0 <= h <= 4_000_000,
{
    let d2 = c.dist_sq(&goal);
    let h = isqrt((100 * d2) as u64);
    proof {
        lemma_sqrt_floor(100 * d2 as int, h as int);
        assert(h * h <= 12_500_000_000_000 ==> h <= 4_000_000) by (nonlinear_arith);
    }
    h as i64
}

} // verus!
