//! The worker state machine: a per-agent controller that owns an optional
//! target, an optional cached waypoint path with a cursor, and a
//! routing/digging mode. Each tick it reads the agent's position and the
//! terrain, refreshes or follows its path, and digs through solid tiles
//! that block the way, emitting a movement directive for the host's motion
//! layer and at most one tile conversion.
//!
//! Failures are recovered locally: when no accessible point or no path is
//! found, or a dig request meets a cell no tile covers, the worker abandons
//! its target and returns to the idle state, waiting for its next command.

use vstd::prelude::*;

use crate::grid::cell_of;
use crate::grid::center_of;
use crate::grid::valid_world_pos;
use crate::grid::world_dist_sq;
use crate::grid::GridPos;
use crate::grid::WorldPos;
use crate::grid::WORLD_BOUND;
use crate::math::isqrt;
use crate::math::round_div;
use crate::math::rounded_div;
use crate::cost::lemma_sqrt_floor;
use crate::cost::sqrt_floor;
use crate::pathfinding::find_nearest_accessible_point;
use crate::pathfinding::find_nearest_result;
use crate::pathfinding::find_path;
use crate::pathfinding::find_path_result;
use crate::terrain::dug_at;
use crate::terrain::has_cell;
use crate::terrain::lemma_dug_monotone;
use crate::terrain::lemma_solid_positions_elems;
use crate::terrain::lemma_solid_positions_valid;
use crate::terrain::solid_at;
use crate::terrain::solid_positions;
use crate::terrain::Tile;
use crate::terrain::TileStore;

verus! {

/// Farthest a worker may stray from its colony anchor, in world units.
pub const MAX_COLONY_DISTANCE: i64 = 500;

/// Squared form of `MAX_COLONY_DISTANCE`, compared against squared
/// distances.
pub const MAX_COLONY_DISTANCE_SQ: i64 = 500 * 500;

/// Squared distance below which the target counts as reached (distance
/// under five world units).
pub const COMPLETION_DISTANCE_SQ: i64 = 25;

/// Squared distance below which a waypoint counts as reached (distance
/// under two world units).
pub const WAYPOINT_ARRIVE_DIST_SQ: i64 = 4;

/// Squared distance below which a dig target counts as reached (distance
/// under one tile width).
pub const DIG_ARRIVE_DIST_SQ: i64 = 64;

/// The worker's mode: following a route, or converting tiles on the
/// straight line toward a dig target.
#[derive(Clone, Copy, PartialEq, Eq, Structural, Debug)]
pub enum WorkerState {
    Routing,
    Digging(WorldPos),
}

/// What the host's motion layer should do this tick: keep the current
/// velocity, stop, walk toward a point at full speed, or advance toward a
/// point at the reduced digging rate.
#[derive(Clone, Copy, PartialEq, Eq, Structural, Debug)]
pub enum Directive {
    Keep,
    Stop,
    Walk(WorldPos),
    DigWalk(WorldPos),
}

/// One tick's outcome: the movement directive, and the position of the
/// tile converted from solid to open, if the worker dug one.
#[derive(Clone, Copy, Debug)]
pub struct TickOutput {
    pub directive: Directive,
    pub dug: Option<WorldPos>,
}

/// One simulated worker agent's controller state.
#[derive(Debug)]
pub struct Ant {
    pub target_position: Option<WorldPos>,
    pub current_path: Option<Vec<WorldPos>>,
    pub current_path_index: usize,
    pub worker_state: WorkerState,
}

/// The idle state: no target, no path, cursor reset, routing mode.
pub open spec fn is_idle(a: Ant) -> bool {
    &&& a.target_position is None
    &&& a.current_path is None
    &&& a.current_path_index == 0
    &&& a.worker_state is Routing
}

/// Every point of a cached path is a valid world position.
pub open spec fn path_points_ok(p: Seq<WorldPos>) -> bool {
    forall|i: int| 0 <= i < p.len() ==> valid_world_pos(#[trigger] p[i])
}

/// The cached path exists and the cursor still points into it.
pub open spec fn has_usable_path(a: Ant) -> bool {
    match a.current_path {
        Some(p) => a.current_path_index < p@.len(),
        None => false,
    }
}

/// The worker is farther from its home anchor than allowed.
pub open spec fn guard_tripped(current: WorldPos, home: WorldPos) -> bool {
    world_dist_sq(current, home) > MAX_COLONY_DISTANCE_SQ
}

/// The worker is within the completion threshold of a point.
pub open spec fn arrived(current: WorldPos, t: WorldPos) -> bool {
    world_dist_sq(current, t) < COMPLETION_DISTANCE_SQ
}

/// The worker is within one tile width of its dig target.
pub open spec fn dig_arrived(current: WorldPos, d: WorldPos) -> bool {
    world_dist_sq(current, d) < DIG_ARRIVE_DIST_SQ
}

/// Two cells within a one-cell Chebyshev radius of each other (including
/// the same cell).
pub open spec fn cheb1(a: GridPos, b: GridPos) -> bool {
    &&& -1 <= a.x - b.x <= 1
    &&& -1 <= a.y - b.y <= 1
}

/// A solid tile lies at or adjacent to cell `c`.
pub open spec fn solid_near(s: Seq<Tile>, c: GridPos) -> bool {
    exists|i: int|
        0 <= i < s.len() && (#[trigger] s[i]).kind is Dirt && cheb1(cell_of(s[i].position), c)
}

/// A coordinate clamped into the world bound.
pub open spec fn clamp_coord(v: int) -> int {
    if v < -(WORLD_BOUND as int) {
        -(WORLD_BOUND as int)
    } else if v > WORLD_BOUND as int {
        WORLD_BOUND as int
    } else {
        v
    }
}

/// The next position one tile width along the straight line from `current`
/// toward `target`: the direction vector scaled to length `TILE_SIZE` with
/// rounded division, clamped into the world bound.
pub open spec fn dig_step_pos(current: WorldPos, target: WorldPos) -> WorldPos {
    let dx = target.x - current.x;
    let dy = target.y - current.y;
    let len = sqrt_floor(dx * dx + dy * dy);
    WorldPos {
        x: clamp_coord(current.x + rounded_div(8 * dx, len)) as i32,
        y: clamp_coord(current.y + rounded_div(8 * dy, len)) as i32,
    }
}

/// Clamp a coordinate into the world bound.
fn clamp_c(v: i64) -> (r: i32)
    requires
        -0x4000_0000_0000 <= v <= 0x4000_0000_0000,
    ensures
        r as int == clamp_coord(v as int),
        -WORLD_BOUND <= r <= WORLD_BOUND,
{
    if v < -(WORLD_BOUND as i64) {
        -WORLD_BOUND
    } else if v > WORLD_BOUND as i64 {
        WORLD_BOUND
    } else {
        v as i32
    }
}

/// The next position to dig toward, one tile width from `current` along
/// the line to `target`.
fn dig_step(current: WorldPos, target: WorldPos) -> (r: WorldPos)
    requires
        valid_world_pos(current),
        valid_world_pos(target),
        world_dist_sq(current, target) >= DIG_ARRIVE_DIST_SQ,
    ensures
        r == dig_step_pos(current, target),
        valid_world_pos(r),
{
    let dx: i64 = target.x as i64 - current.x as i64;
    let dy: i64 = target.y as i64 - current.y as i64;
    let d2: i64 = current.dist_sq(&target);
    let len: i64 = isqrt(d2 as u64) as i64;
    proof {
        assert(dx * dx + dy * dy == world_dist_sq(current, target)) by (nonlinear_arith)
            requires
                dx == target.x - current.x,
                dy == target.y - current.y,
        ;
        lemma_sqrt_floor(d2 as int, len as int);
        assert(8 <= len <= 3_000_000) by (nonlinear_arith)
            requires
                0 <= len,
                len * len <= d2,
                d2 < (len + 1) * (len + 1),
                64 <= d2 <= 8_000_000_000_000,
        ;
    }
    let sx = round_div(8 * dx, len);
    let sy = round_div(8 * dy, len);
    let nx = clamp_c(current.x as i64 + sx);
    let ny = clamp_c(current.y as i64 + sy);
    WorldPos { x: nx, y: ny }
}

/// Whether the snapshot holds a solid position at or adjacent to cell `c`.
fn any_solid_near(solid: &Vec<WorldPos>, c: GridPos) -> (r: bool)
    requires
        crate::grid::valid_cell(c),
        forall|i: int| 0 <= i < solid@.len() ==> valid_world_pos(#[trigger] solid@[i]),
    ensures
        r == exists|i: int|
            0 <= i < solid@.len() && cheb1(cell_of(#[trigger] solid@[i]), c),
{
    let mut i: usize = 0;
    while i < solid.len()
        invariant
            0 <= i <= solid@.len(),
            crate::grid::valid_cell(c),
            forall|k: int| 0 <= k < solid@.len() ==> valid_world_pos(#[trigger] solid@[k]),
            forall|j: int| 0 <= j < i ==> !cheb1(cell_of(#[trigger] solid@[j]), c),
        decreases solid@.len() - i,
    {
        let tc = GridPos::from_world(solid[i]);
        let dx: i32 = tc.x - c.x;
        let dy: i32 = tc.y - c.y;
        if -1 <= dx && dx <= 1 && -1 <= dy && dy <= 1 {
            return true;
        }
        i = i + 1;
    }
    false
}

/// A solid position near `c` in the snapshot is the same thing as a solid
/// tile near `c` in the store the snapshot was taken from.
proof fn lemma_snapshot_near(s: Seq<Tile>, snap: Seq<WorldPos>, c: GridPos)
    requires
        snap == solid_positions(s),
    ensures
        (exists|i: int| 0 <= i < snap.len() && cheb1(cell_of(#[trigger] snap[i]), c))
            == solid_near(s, c),
{
    lemma_solid_positions_elems(s);
    if exists|i: int| 0 <= i < snap.len() && cheb1(cell_of(#[trigger] snap[i]), c) {
        let k = choose|k: int| 0 <= k < snap.len() && cheb1(cell_of(#[trigger] snap[k]), c);
        let i = choose|i: int|
            0 <= i < s.len() && (#[trigger] s[i]).kind is Dirt && s[i].position == snap[k];
        assert(solid_near(s, c));
    }
    if solid_near(s, c) {
        let i = choose|i: int|
            0 <= i < s.len() && (#[trigger] s[i]).kind is Dirt && cheb1(cell_of(s[i].position), c);
        let k = choose|k: int|
            0 <= k < solid_positions(s).len() && #[trigger] (solid_positions(s)[k]) == s[i].position;
        assert(cheb1(cell_of(snap[k]), c));
    }
}

impl Ant {
    /// The controller's invariant: a worker without a target is idle, every
    /// remembered position is valid, and cached path points are valid.
    pub open spec fn wf(&self) -> bool {
        &&& match self.target_position {
            Some(t) => valid_world_pos(t),
            None => true,
        }
        &&& (self.target_position is None ==> is_idle(*self))
        &&& match self.current_path {
            Some(p) => path_points_ok(p@),
            None => true,
        }
        &&& match self.worker_state {
            WorkerState::Digging(d) => valid_world_pos(d),
            WorkerState::Routing => true,
        }
    }

    /// A fresh worker: idle, with nothing cached.
    pub fn new() -> (a: Ant)
        ensures
            a.wf(),
            is_idle(a),
    {
        Ant {
            target_position: None,
            current_path: None,
            current_path_index: 0,
            worker_state: WorkerState::Routing,
        }
    }

    /// An external command assigns a new target: any in-flight path and
    /// mode are cancelled and the path will be recomputed lazily.
    pub fn assign_target(&mut self, t: WorldPos)
        requires
            old(self).wf(),
            valid_world_pos(t),
        ensures
            final(self).wf(),
            final(self).target_position == Some(t),
            final(self).current_path is None,
            final(self).current_path_index == 0,
            final(self).worker_state is Routing,
    {
        self.target_position = Some(t);
        self.current_path = None;
        self.current_path_index = 0;
        self.worker_state = WorkerState::Routing;
    }

    /// One simulation tick: read the agent's position and home anchor,
    /// consult and possibly dig the terrain, and say how to move.
    ///
    /// The contract pins every branch exactly: an idle worker is a fixed
    /// point; the home-range guard overrides the target with the anchor
    /// before anything else; arrival within the completion threshold
    /// clears everything; digging converts at most one tile per tick,
    /// never the other way; following a cached path defers to digging
    /// whenever a solid tile is at or beside the next waypoint; and a
    /// recomputed path is the deterministic result of the two searches on
    /// the terrain snapshot.
    pub fn tick(&mut self, current: WorldPos, home: WorldPos, store: &mut TileStore) -> (out:
        TickOutput)
        requires
            old(self).wf(),
            valid_world_pos(current),
            valid_world_pos(home),
            old(store).wf(),
        ensures
            final(self).wf(),
            final(store).wf(),
            match out.dug {
                None => final(store).tiles() == old(store).tiles(),
                Some(p) => {
                    &&& p == center_of(cell_of(p))
                    &&& dug_at(old(store).tiles(), final(store).tiles(), cell_of(p))
                },
            },
            forall|c: GridPos| #[trigger]
                solid_at(final(store).tiles(), c) ==> solid_at(old(store).tiles(), c),
            old(self).target_position is None ==> *final(self) == *old(self) && out.directive is Stop
                && out.dug is None,
            (old(self).target_position is Some && guard_tripped(current, home)) ==> {
                &&& final(self).target_position == Some(home)
                &&& final(self).current_path == old(self).current_path
                &&& final(self).current_path_index == old(self).current_path_index
                &&& final(self).worker_state == old(self).worker_state
                &&& out.directive is Keep
                &&& out.dug is None
            },
            (old(self).target_position is Some && !guard_tripped(current, home)) ==> match old(
                self,
            ).worker_state {
                WorkerState::Digging(d) => {
                    if dig_arrived(current, d) {
                        &&& final(self).target_position == old(self).target_position
                        &&& final(self).worker_state is Routing
                        &&& final(self).current_path == old(self).current_path
                        &&& final(self).current_path_index == if has_usable_path(*old(self)) {
                            old(self).current_path_index + 1
                        } else {
                            old(self).current_path_index as int
                        }
                        &&& out.directive is Stop
                        &&& out.dug is None
                    } else {
                        let c = cell_of(dig_step_pos(current, d));
                        if !has_cell(old(store).tiles(), c) {
                            &&& is_idle(*final(self))
                            &&& out.directive is Stop
                            &&& out.dug is None
                        } else if solid_at(old(store).tiles(), c) {
                            &&& *final(self) == *old(self)
                            &&& out.directive == Directive::DigWalk(d)
                            &&& out.dug == Some(center_of(c))
                        } else {
                            &&& *final(self) == *old(self)
                            &&& out.directive == Directive::Walk(d)
                            &&& out.dug is None
                        }
                    }
                },
                WorkerState::Routing => match old(self).target_position {
                    Some(t) => {
                        if arrived(current, t) {
                            &&& is_idle(*final(self))
                            &&& out.directive is Stop
                            &&& out.dug is None
                        } else if has_usable_path(*old(self)) {
                            match old(self).current_path {
                                Some(p) => {
                                    let w = p@[old(self).current_path_index as int];
                                    if solid_near(old(store).tiles(), cell_of(w)) {
                                        &&& final(self).target_position == old(
                                            self,
                                        ).target_position
                                        &&& final(self).current_path == old(self).current_path
                                        &&& final(self).current_path_index == old(
                                            self,
                                        ).current_path_index
                                        &&& final(self).worker_state == WorkerState::Digging(w)
                                        &&& out.directive is Stop
                                        &&& out.dug is None
                                    } else if world_dist_sq(current, w)
                                        < WAYPOINT_ARRIVE_DIST_SQ {
                                        &&& final(self).target_position == old(
                                            self,
                                        ).target_position
                                        &&& final(self).current_path == old(self).current_path
                                        &&& final(self).current_path_index == old(
                                            self,
                                        ).current_path_index + 1
                                        &&& final(self).worker_state is Routing
                                        &&& (out.directive is Stop <==> old(
                                            self,
                                        ).current_path_index + 1 >= p@.len())
                                        &&& (out.directive is Keep <==> old(
                                            self,
                                        ).current_path_index + 1 < p@.len())
                                        &&& out.dug is None
                                    } else {
                                        &&& *final(self) == *old(self)
                                        &&& out.directive == Directive::Walk(w)
                                        &&& out.dug is None
                                    }
                                },
                                None => true,
                            }
                        } else {
                            // no usable cached path: recompute from a
                            // fresh snapshot and follow the result at once
                            let snap = solid_positions(old(store).tiles());
                            let ap = find_nearest_result(current, t, snap);
                            if cell_of(ap) == cell_of(current) {
                                &&& final(self).target_position == old(self).target_position
                                &&& final(self).current_path == old(self).current_path
                                &&& final(self).current_path_index == old(
                                    self,
                                ).current_path_index
                                &&& final(self).worker_state == WorkerState::Digging(t)
                                &&& out.directive is Stop
                                &&& out.dug is None
                            } else {
                                match find_path_result(current, ap, snap) {
                                    None => is_idle(*final(self)) && out.directive is Stop
                                        && out.dug is None,
                                    Some(pp) => {
                                        &&& final(self).target_position == old(
                                            self,
                                        ).target_position
                                        &&& (match final(self).current_path {
                                            Some(q) => q@ == pp,
                                            None => false,
                                        })
                                        &&& out.dug is None
                                        &&& if solid_near(old(store).tiles(), cell_of(pp[0])) {
                                            &&& final(self).current_path_index == 0
                                            &&& final(self).worker_state == WorkerState::Digging(
                                                pp[0],
                                            )
                                            &&& out.directive is Stop
                                        } else if world_dist_sq(current, pp[0])
                                            < WAYPOINT_ARRIVE_DIST_SQ {
                                            &&& final(self).current_path_index == 1
                                            &&& final(self).worker_state is Routing
                                            &&& (out.directive is Stop <==> pp.len() <= 1)
                                            &&& (out.directive is Keep <==> pp.len() > 1)
                                        } else {
                                            &&& final(self).current_path_index == 0
                                            &&& final(self).worker_state is Routing
                                            &&& out.directive == Directive::Walk(pp[0])
                                        }
                                    },
                                }
                            }
                        }
                    },
                    None => true,
                },
            },
    {
        let t = match self.target_position {
            None => {
                return TickOutput { directive: Directive::Stop, dug: None };
            },
            Some(t) => t,
        };
        if current.dist_sq(&home) > MAX_COLONY_DISTANCE_SQ {
            self.target_position = Some(home);
            return TickOutput { directive: Directive::Keep, dug: None };
        }
        match self.worker_state {
            WorkerState::Digging(d) => {
                if current.dist_sq(&d) < DIG_ARRIVE_DIST_SQ {
                    let advance = match &self.current_path {
                        Some(p) => self.current_path_index < p.len(),
                        None => false,
                    };
                    if advance {
                        self.current_path_index = self.current_path_index + 1;
                    }
                    self.worker_state = WorkerState::Routing;
                    return TickOutput { directive: Directive::Stop, dug: None };
                }
                let np = dig_step(current, d);
                let present_solid: Option<bool> = match store.get_tile(&np) {
                    None => None,
                    Some(tile) => Some(tile.kind.is_solid()),
                };
                match present_solid {
                    None => {
                        self.target_position = None;
                        self.current_path = None;
                        self.current_path_index = 0;
                        self.worker_state = WorkerState::Routing;
                        return TickOutput { directive: Directive::Stop, dug: None };
                    },
                    Some(true) => {
                        let converted = store.convert_to_open(&np);
                        let cpos = GridPos::from_world(np).to_world();
                        proof {
                            assert(converted);
                            crate::grid::lemma_snap_idempotent(cell_of(np));
                            lemma_dug_monotone(
                                old(store).tiles(),
                                store.tiles(),
                                cell_of(np),
                            );
                        }
                        return TickOutput {
                            directive: Directive::DigWalk(d),
                            dug: Some(cpos),
                        };
                    },
                    Some(false) => {
                        return TickOutput { directive: Directive::Walk(d), dug: None };
                    },
                }
            },
            WorkerState::Routing => {},
        }
        if current.dist_sq(&t) < COMPLETION_DISTANCE_SQ {
            self.target_position = None;
            self.current_path = None;
            self.current_path_index = 0;
            self.worker_state = WorkerState::Routing;
            return TickOutput { directive: Directive::Stop, dug: None };
        }
        let usable = match &self.current_path {
            Some(p) => self.current_path_index < p.len(),
            None => false,
        };
        if !usable {
            let solid = store.get_solid_tiles();
            proof {
                lemma_solid_positions_valid(store.tiles());
            }
            match find_nearest_accessible_point(current, t, &solid) {
                None => {
                    self.target_position = None;
                    self.current_path = None;
                    self.current_path_index = 0;
                    self.worker_state = WorkerState::Routing;
                    return TickOutput { directive: Directive::Stop, dug: None };
                },
                Some(ap) => {
                    let apc = GridPos::from_world(ap);
                    let cc = GridPos::from_world(current);
                    if apc.x == cc.x && apc.y == cc.y {
                        // the nearest accessible point is effectively the
                        // worker's own cell: dig straight toward the target
                        self.worker_state = WorkerState::Digging(t);
                        return TickOutput { directive: Directive::Stop, dug: None };
                    }
                    match find_path(current, ap, &solid) {
                        None => {
                            self.target_position = None;
                            self.current_path = None;
                            self.current_path_index = 0;
                            self.worker_state = WorkerState::Routing;
                            return TickOutput { directive: Directive::Stop, dug: None };
                        },
                        Some(p) => {
                            self.current_path = Some(p);
                            self.current_path_index = 0;
                        },
                    }
                },
            }
        }
        let (w, plen) = match &self.current_path {
            Some(p) => (p[self.current_path_index], p.len()),
            None => {
                proof {
                    assert(false);
                }
                return TickOutput { directive: Directive::Stop, dug: None };
            },
        };
        let solid2 = store.get_solid_tiles();
        proof {
            lemma_solid_positions_valid(store.tiles());
        }
        let wc = GridPos::from_world(w);
        let needs_digging = any_solid_near(&solid2, wc);
        proof {
            lemma_snapshot_near(store.tiles(), solid2@, wc);
        }
        if needs_digging {
            self.worker_state = WorkerState::Digging(w);
            return TickOutput { directive: Directive::Stop, dug: None };
        }
        if current.dist_sq(&w) < WAYPOINT_ARRIVE_DIST_SQ {
            self.current_path_index = self.current_path_index + 1;
            if self.current_path_index >= plen {
                return TickOutput { directive: Directive::Stop, dug: None };
            }
            return TickOutput { directive: Directive::Keep, dug: None };
        }
        TickOutput { directive: Directive::Walk(w), dug: None }
    }
}

impl Default for Ant {
    /// A fresh worker: idle, with nothing cached.
    fn default() -> (a: Ant)
        ensures
            a.wf(),
            is_idle(a),
    {
        Ant::new()
    }
}

} // verus!
