//! Grid coordinate model: the bidirectional mapping between world positions
//! and discrete grid cells, and the squared-distance measures the searches
//! and the worker controller compare against thresholds.
//!
//! World positions are integer pairs in fixed world units; a cell spans
//! `TILE_SIZE` world units and a position maps to the cell whose center is
//! nearest (ties toward the positive side). All distance tests in the
//! library compare squared distances, so no square root of a measurement is
//! ever taken on an inexact value.

use vstd::prelude::*;

verus! {

/// Width and height of one grid cell, in world units.
pub const TILE_SIZE: i32 = 8;

/// Half a cell, used when rounding a position to the nearest cell center.
pub const HALF_TILE: i32 = 4;

/// Positions handed to the library lie within this bound on each axis.
pub const WORLD_BOUND: i32 = 1_000_000;

/// Every cell reachable from a valid world position lies within this bound.
pub const CELL_BOUND: i32 = 125_000;

/// A continuous position in the world, in fixed integer world units.
#[derive(Clone, Copy, PartialEq, Eq, Structural, Debug)]
pub struct WorldPos {
    pub x: i32,
    pub y: i32,
}

/// A discrete grid cell, identified by integer cell coordinates.
#[derive(Clone, Copy, PartialEq, Eq, Structural, Debug)]
pub struct GridPos {
    pub x: i32,
    pub y: i32,
}

/// A world position the library accepts: both coordinates within
/// `WORLD_BOUND`, so that squared distances and cell conversions fit
/// comfortably in the machine integers used below.
pub open spec fn valid_world_pos(p: WorldPos) -> bool {
    &&& -WORLD_BOUND <= p.x <= WORLD_BOUND
    &&& -WORLD_BOUND <= p.y <= WORLD_BOUND
}

/// A cell within the bounded coordinate space the searches explore.
pub open spec fn valid_cell(c: GridPos) -> bool {
    &&& -CELL_BOUND <= c.x <= CELL_BOUND
    &&& -CELL_BOUND <= c.y <= CELL_BOUND
}

/// One world coordinate rounded to the nearest cell coordinate
/// (ties round toward positive infinity).
pub open spec fn cell_coord(v: int) -> int {
    (v + HALF_TILE) / (TILE_SIZE as int)
}

/// The cell a world position belongs to.
pub open spec fn cell_of(p: WorldPos) -> GridPos {
    GridPos { x: cell_coord(p.x as int) as i32, y: cell_coord(p.y as int) as i32 }
}

/// The world position of a cell's center.
pub open spec fn center_of(c: GridPos) -> WorldPos {
    WorldPos { x: (c.x * TILE_SIZE) as i32, y: (c.y * TILE_SIZE) as i32 }
}

/// Squared Euclidean distance between two world positions, in world units.
pub open spec fn world_dist_sq(a: WorldPos, b: WorldPos) -> int {
    (a.x - b.x) * (a.x - b.x) + (a.y - b.y) * (a.y - b.y)
}

/// Squared Euclidean distance between two cells, in cell units.
pub open spec fn cell_dist_sq(a: GridPos, b: GridPos) -> int {
    (a.x - b.x) * (a.x - b.x) + (a.y - b.y) * (a.y - b.y)
}

/// Two cells are neighbors in the 8-connected grid: distinct, and each
/// coordinate differs by at most one.
pub open spec fn adjacent8(a: GridPos, b: GridPos) -> bool {
    &&& a != b
    &&& -1 <= a.x - b.x <= 1
    &&& -1 <= a.y - b.y <= 1
}

impl GridPos {
    /// The grid cell containing a world position: each coordinate is divided
    /// by the cell size and rounded to the nearest integer.
    pub fn from_world(p: WorldPos) -> (c: GridPos)
        requires
            valid_world_pos(p),
        ensures
            c == cell_of(p),
            valid_cell(c),
    {
        let cx = match (p.x + HALF_TILE).checked_div_euclid(TILE_SIZE) {
            Some(v) => v,
            None => 0,
        };
        let cy = match (p.y + HALF_TILE).checked_div_euclid(TILE_SIZE) {
            Some(v) => v,
            None => 0,
        };
        GridPos { x: cx, y: cy }
    }

    /// The world position of this cell's center. `to_world` after
    /// `from_world` snaps a position to the nearest cell center.
    pub fn to_world(self) -> (p: WorldPos)
        requires
            valid_cell(self),
        ensures
            p == center_of(self),
            valid_world_pos(p),
    {
        WorldPos { x: self.x * TILE_SIZE, y: self.y * TILE_SIZE }
    }

    /// Squared distance to another cell, in cell units.
    pub fn dist_sq(&self, other: &GridPos) -> (d: i64)
        requires
            valid_cell(*self),
            valid_cell(*other),
        ensures
            d == cell_dist_sq(*self, *other),
            0 <= d <= 125_000_000_000,
    {
        let dx: i64 = self.x as i64 - other.x as i64;
        let dy: i64 = self.y as i64 - other.y as i64;
        proof {
            assert(dx * dx + dy * dy == cell_dist_sq(*self, *other)) by (nonlinear_arith)
                requires
                    dx == self.x - other.x,
                    dy == self.y - other.y,
            ;
            assert(0 <= dx * dx <= 62_500_000_000 && 0 <= dy * dy <= 62_500_000_000)
                by (nonlinear_arith)
                requires
                    -250_000 <= dx <= 250_000,
                    -250_000 <= dy <= 250_000,
            ;
        }
        dx * dx + dy * dy
    }
}

impl WorldPos {
    /// Squared distance to another world position, in world units.
    pub fn dist_sq(&self, other: &WorldPos) -> (d: i64)
        requires
            valid_world_pos(*self),
            valid_world_pos(*other),
        ensures
            d == world_dist_sq(*self, *other),
            0 <= d <= 8_000_000_000_000,
    {
        let dx: i64 = self.x as i64 - other.x as i64;
        let dy: i64 = self.y as i64 - other.y as i64;
        proof {
            assert(dx * dx + dy * dy == world_dist_sq(*self, *other)) by (nonlinear_arith)
                requires
                    dx == self.x - other.x,
                    dy == self.y - other.y,
            ;
            assert(0 <= dx * dx <= 4_000_000_000_000 && 0 <= dy * dy <= 4_000_000_000_000)
                by (nonlinear_arith)
                requires
                    -2_000_000 <= dx <= 2_000_000,
                    -2_000_000 <= dy <= 2_000_000,
            ;
        }
        dx * dx + dy * dy
    }
}

/// Snapping is idempotent: a cell center maps back to the same cell, so
/// `cell_of(center_of(c)) == c` for every valid cell.
pub proof fn lemma_snap_idempotent(c: GridPos)
    requires
        valid_cell(c),
    ensures
        cell_of(center_of(c)) == c,
{
}

} // verus!
