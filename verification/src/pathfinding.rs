//! Cost-aware grid searches over the 8-connected cell neighborhood.
//!
//! `find_path` is a best-first search from a start to a goal position in
//! which solid cells are penalized, not forbidden: entering one adds a
//! digging surcharge to the move cost. `find_nearest_accessible_point`
//! runs the same mechanics goal-relaxed, tracking the visited cell nearest
//! to the target and stopping early once effectively arrived.
//!
//! Both searches run on the bounded cell space `valid_cell` and spend a
//! fixed exploration budget; a goal that the budget cannot reach behaves
//! like one outside the graph's reachable bound. Positions within the
//! direct-dig threshold short-circuit: for such short hops digging straight
//! toward the goal is assumed cheaper than routing, and no search runs.

use vstd::prelude::*;

use crate::cost::heuristic;
use crate::cost::step_cost;
use crate::cost::within_direct_dig;
use crate::cost::MAX_DIG_DISTANCE;
use crate::grid::adjacent8;
use crate::grid::cell_dist_sq;
use crate::grid::cell_of;
use crate::grid::center_of;
use crate::grid::lemma_snap_idempotent;
use crate::grid::valid_cell;
use crate::grid::valid_world_pos;
use crate::grid::GridPos;
use crate::grid::WorldPos;
use crate::grid::CELL_BOUND;

verus! {

/// How many node expansions a single search may spend before giving up.
const SEARCH_FUEL: u64 = 1_000_000;

/// Upper bound kept on accumulated path costs, far beyond any cost the
/// exploration budget can accumulate; a step that would exceed it is not
/// taken, so cost arithmetic never overflows.
const G_CAP: i64 = 0x100_0000_0000;

/// Squared cell distance below which a goal-relaxed search counts a
/// visited cell as effectively at the target (cell distance under two).
const NEAR_TARGET_CELL_DIST_SQ: i64 = 4;

/// One discovered cell: its best known cost from the start, the entry
/// index of the predecessor on that best path, and whether the cell has
/// been expanded.
#[derive(Clone, Copy, PartialEq, Eq, Structural)]
struct Entry {
    cell: GridPos,
    g: i64,
    parent: usize,
    closed: bool,
}

/// One frontier node awaiting expansion, ordered by priority `f`
/// (cost so far plus heuristic).
#[derive(Clone, Copy, PartialEq, Eq, Structural)]
struct OpenNode {
    cell: GridPos,
    f: i64,
}

/// Some entry holds cell `c`.
spec fn has_entry(es: Seq<Entry>, c: GridPos) -> bool {
    exists|i: int| 0 <= i < es.len() && (#[trigger] es[i]).cell == c
}

/// The discovered-cell table is well formed: the first entry is the start
/// cell and its own parent; every entry is a valid cell with a bounded
/// cost and an in-range parent; every later entry is adjacent to its
/// parent; and no cell appears twice.
spec fn entries_wf(es: Seq<Entry>, start_c: GridPos) -> bool {
    &&& es.len() >= 1
    &&& es[0].cell == start_c
    &&& es[0].parent == 0
    &&& es[0].g == 0
    &&& forall|i: int|
        0 <= i < es.len() ==> {
            &&& valid_cell((#[trigger] es[i]).cell)
            &&& 0 <= es[i].g <= G_CAP
            &&& es[i].parent < es.len()
        }
    &&& forall|i: int|
        1 <= i < es.len() ==> adjacent8((#[trigger] es[i]).cell, es[es[i].parent as int].cell)
    &&& forall|i: int, j: int|
        0 <= i < j < es.len() ==> (#[trigger] es[i]).cell != (#[trigger] es[j]).cell
}

/// Every frontier node's cell has an entry.
spec fn open_ok(open: Seq<OpenNode>, es: Seq<Entry>) -> bool {
    forall|k: int| 0 <= k < open.len() ==> has_entry(es, (#[trigger] open[k]).cell)
}

/// Adding entries never loses `has_entry`.
proof fn lemma_has_entry_push(es: Seq<Entry>, e: Entry, c: GridPos)
    requires
        has_entry(es, c),
    ensures
        has_entry(es.push(e), c),
{
    let i = choose|i: int| 0 <= i < es.len() && (#[trigger] es[i]).cell == c;
    assert(es.push(e)[i].cell == c);
}

/// Updating an entry in place (same cell) never loses `has_entry`.
proof fn lemma_has_entry_update(es: Seq<Entry>, k: int, e: Entry, c: GridPos)
    requires
        has_entry(es, c),
        0 <= k < es.len(),
        e.cell == es[k].cell,
    ensures
        has_entry(es.update(k, e), c),
{
    let i = choose|i: int| 0 <= i < es.len() && (#[trigger] es[i]).cell == c;
    assert(es.update(k, e)[i].cell == c);
}

/// The index of the first entry holding cell `c`, if any.
spec fn find_entry_spec(es: Seq<Entry>, c: GridPos) -> Option<int>
    decreases es.len(),
{
    if es.len() == 0 {
        None
    } else {
        match find_entry_spec(es.drop_last(), c) {
            Some(i) => Some(i),
            None => if es.last().cell == c {
                Some(es.len() - 1)
            } else {
                None
            },
        }
    }
}

/// `find_entry_spec` finds exactly the first match.
proof fn lemma_find_entry_spec(es: Seq<Entry>, c: GridPos)
    ensures
        match find_entry_spec(es, c) {
            Some(i) => 0 <= i < es.len() && es[i].cell == c && forall|j: int|
                0 <= j < i ==> (#[trigger] es[j]).cell != c,
            None => !has_entry(es, c),
        },
    decreases es.len(),
{
    if es.len() > 0 {
        lemma_find_entry_spec(es.drop_last(), c);
        assert(forall|j: int| 0 <= j < es.len() - 1 ==> es.drop_last()[j] == #[trigger] es[j]);
        match find_entry_spec(es, c) {
            Some(i) => {},
            None => {
                assert forall|i: int| 0 <= i < es.len() implies (#[trigger] es[i]).cell != c by {
                    if i < es.len() - 1 {
                        assert(es.drop_last()[i].cell != c);
                    }
                }
            },
        }
    }
}

/// First entry holding cell `c`, if any.
fn find_entry(es: &Vec<Entry>, c: GridPos) -> (r: Option<usize>)
    ensures
        match r {
            Some(i) => 0 <= i < es@.len() && es@[i as int].cell == c && find_entry_spec(es@, c)
                == Some(i as int),
            None => !has_entry(es@, c) && find_entry_spec(es@, c) is None,
        },
{
    let mut i: usize = 0;
    while i < es.len()
        invariant
            0 <= i <= es@.len(),
            forall|j: int| 0 <= j < i ==> (#[trigger] es@[j]).cell != c,
        decreases es@.len() - i,
    {
        let ec = es[i].cell;
        if ec.x == c.x && ec.y == c.y {
            proof {
                lemma_find_entry_spec(es@, c);
                match find_entry_spec(es@, c) {
                    Some(k) => {
                        if k < i as int {
                            assert(es@[k].cell != c);
                        }
                        if k > i as int {
                            assert(es@[i as int].cell != c);
                        }
                    },
                    None => {
                        assert(es@[i as int].cell != c);
                    },
                }
            }
            return Some(i);
        }
        i = i + 1;
    }
    proof {
        lemma_find_entry_spec(es@, c);
        if find_entry_spec(es@, c) is Some {
            let k = find_entry_spec(es@, c)->Some_0;
            assert(es@[k].cell != c);
        }
    }
    None
}

/// The index of the first frontier node with the lowest priority.
spec fn first_min_idx(s: Seq<OpenNode>) -> int
    decreases s.len(),
{
    if s.len() <= 1 {
        0
    } else {
        let p = first_min_idx(s.drop_last());
        if s.last().f < s[p].f {
            s.len() - 1
        } else {
            p
        }
    }
}

/// `first_min_idx` is in range and picks the earliest minimum.
proof fn lemma_first_min_idx(s: Seq<OpenNode>)
    requires
        s.len() >= 1,
    ensures
        0 <= first_min_idx(s) < s.len(),
        forall|j: int| 0 <= j < s.len() ==> s[first_min_idx(s)].f <= (#[trigger] s[j]).f,
        forall|j: int| 0 <= j < first_min_idx(s) ==> s[first_min_idx(s)].f < (#[trigger] s[j]).f,
    decreases s.len(),
{
    if s.len() > 1 {
        lemma_first_min_idx(s.drop_last());
        assert(forall|j: int| 0 <= j < s.len() - 1 ==> s.drop_last()[j] == #[trigger] s[j]);
    }
}

/// Remove and return the frontier node with the lowest priority (the
/// earliest-inserted one among ties).
fn pop_min(open: &mut Vec<OpenNode>) -> (r: Option<OpenNode>)
    ensures
        match r {
            None => final(open)@ == old(open)@ && old(open)@.len() == 0,
            Some(n) => {
                &&& old(open)@.len() >= 1
                &&& n == old(open)@[first_min_idx(old(open)@)]
                &&& final(open)@ == old(open)@.remove(first_min_idx(old(open)@))
                &&& exists|k: int|
                    0 <= k < old(open)@.len() && (#[trigger] old(open)@[k]) == n && final(open)@
                        == old(open)@.remove(k)
                &&& forall|k: int| 0 <= k < old(open)@.len() ==> n.f <= (#[trigger] old(open)@[k]).f
            },
        },
{
    if open.len() == 0 {
        return None;
    }
    let mut best: usize = 0;
    let mut i: usize = 1;
    while i < open.len()
        invariant
            0 <= best < i <= open@.len(),
            best as int == first_min_idx(open@.take(i as int)),
            forall|j: int| 0 <= j < i ==> open@[best as int].f <= (#[trigger] open@[j]).f,
        decreases open@.len() - i,
    {
        proof {
            assert(open@.take(i + 1).drop_last() =~= open@.take(i as int));
            assert(open@.take(i + 1).last() == open@[i as int]);
            lemma_first_min_idx(open@.take(i as int));
            assert(open@.take(i + 1)[best as int] == open@[best as int]);
        }
        if open[i].f < open[best].f {
            best = i;
        }
        i = i + 1;
    }
    proof {
        assert(open@.take(open@.len() as int) =~= open@);
        lemma_first_min_idx(open@);
    }
    let n = open.remove(best);
    Some(n)
}

/// The search's whole mutable state: the discovered-cell table and the
/// frontier.
#[verifier::ext_equal]
struct SearchState {
    es: Seq<Entry>,
    open: Seq<OpenNode>,
}

/// What one expansion step leaves behind: a state to keep searching from,
/// the table and goal entry at the moment the goal cell was popped, or
/// exhaustion of the frontier.
enum SearchOutcome {
    Running(SearchState),
    Found(Seq<Entry>, int),
    Failed,
}

/// One neighbor of the popped cell, relaxed: out-of-bounds or over-budget
/// steps leave the state alone; a strictly cheaper route to a known open
/// cell rewrites its entry; an unknown cell is added to table and frontier.
spec fn process_neighbor(
    st: SearchState,
    ci: int,
    cur_g: int,
    goal: GridPos,
    trip_d2: int,
    obstacles: Seq<GridPos>,
    dx: int,
    dy: int,
) -> SearchState {
    let cur_cell = st.es[ci].cell;
    let nxi = cur_cell.x + dx;
    let nyi = cur_cell.y + dy;
    if dx == 0 && dy == 0 {
        st
    } else if !(-CELL_BOUND <= nxi <= CELL_BOUND && -CELL_BOUND <= nyi <= CELL_BOUND) {
        st
    } else if cur_g > G_CAP - 34 {
        st
    } else {
        let ncell = GridPos { x: nxi as i32, y: nyi as i32 };
        let blocked = obstacles.contains(ncell);
        let new_g = cur_g + crate::cost::spec_step_cost(cur_cell, ncell, blocked, trip_d2);
        let f = new_g + crate::cost::sqrt_floor(100 * cell_dist_sq(ncell, goal));
        let e = Entry { cell: ncell, g: new_g as i64, parent: ci as usize, closed: false };
        let n = OpenNode { cell: ncell, f: f as i64 };
        match find_entry_spec(st.es, ncell) {
            Some(ei) => if !st.es[ei].closed && new_g < st.es[ei].g {
                SearchState { es: st.es.update(ei, e), open: st.open.push(n) }
            } else {
                st
            },
            None => SearchState { es: st.es.push(e), open: st.open.push(n) },
        }
    }
}

/// The first `k` of the nine neighborhood offsets, processed in sweep
/// order (offset `k` is `(k / 3 - 1, k % 3 - 1)`).
spec fn process_upto(
    st: SearchState,
    ci: int,
    cur_g: int,
    goal: GridPos,
    trip_d2: int,
    obstacles: Seq<GridPos>,
    k: int,
) -> SearchState
    decreases k,
{
    if k <= 0 {
        st
    } else {
        process_neighbor(
            process_upto(st, ci, cur_g, goal, trip_d2, obstacles, k - 1),
            ci,
            cur_g,
            goal,
            trip_d2,
            obstacles,
            (k - 1) / 3 - 1,
            (k - 1) % 3 - 1,
        )
    }
}

/// One whole expansion step: pop the earliest lowest-priority frontier
/// node; stop on the goal cell; otherwise close its entry and relax all
/// eight neighbors.
spec fn search_step(
    st: SearchState,
    goal: GridPos,
    trip_d2: int,
    obstacles: Seq<GridPos>,
) -> SearchOutcome {
    if st.open.len() == 0 {
        SearchOutcome::Failed
    } else {
        let n = st.open[first_min_idx(st.open)];
        let open1 = st.open.remove(first_min_idx(st.open));
        match find_entry_spec(st.es, n.cell) {
            None => SearchOutcome::Failed,
            Some(ci) => if n.cell == goal {
                SearchOutcome::Found(st.es, ci)
            } else {
                let marked = Entry {
                    cell: st.es[ci].cell,
                    g: st.es[ci].g,
                    parent: st.es[ci].parent,
                    closed: true,
                };
                SearchOutcome::Running(
                    process_upto(
                        SearchState { es: st.es.update(ci, marked), open: open1 },
                        ci,
                        st.es[ci].g as int,
                        goal,
                        trip_d2,
                        obstacles,
                        9,
                    ),
                )
            },
        }
    }
}

/// Up to `n` expansion steps; a finished outcome absorbs further steps.
spec fn run_search(
    st: SearchState,
    goal: GridPos,
    trip_d2: int,
    obstacles: Seq<GridPos>,
    n: nat,
) -> SearchOutcome
    decreases n,
{
    if n == 0 {
        SearchOutcome::Running(st)
    } else {
        match run_search(st, goal, trip_d2, obstacles, (n - 1) as nat) {
            SearchOutcome::Running(s) => search_step(s, goal, trip_d2, obstacles),
            o => o,
        }
    }
}

/// Once a run has finished, more steps change nothing.
proof fn lemma_run_absorbs(
    st: SearchState,
    goal: GridPos,
    trip_d2: int,
    obstacles: Seq<GridPos>,
    k: nat,
    n: nat,
)
    requires
        k <= n,
        !(run_search(st, goal, trip_d2, obstacles, k) is Running),
    ensures
        run_search(st, goal, trip_d2, obstacles, n) == run_search(st, goal, trip_d2, obstacles, k),
    decreases n,
{
    if n > k {
        lemma_run_absorbs(st, goal, trip_d2, obstacles, k, (n - 1) as nat);
    }
}

/// The centers of the cells on the parent chain from `cur` back toward the
/// start entry, newest first, following at most `fuel` links.
spec fn chain_positions(es: Seq<Entry>, cur: int, fuel: nat) -> Seq<WorldPos>
    decreases fuel,
{
    if cur == 0 || fuel == 0 {
        Seq::empty()
    } else {
        seq![center_of(es[cur].cell)] + chain_positions(es, es[cur].parent as int, (fuel - 1) as nat)
    }
}

/// Where the parent chain stops after at most `fuel` links.
spec fn chain_end(es: Seq<Entry>, cur: int, fuel: nat) -> int
    decreases fuel,
{
    if cur == 0 || fuel == 0 {
        cur
    } else {
        chain_end(es, es[cur].parent as int, (fuel - 1) as nat)
    }
}

/// The waypoint list rebuilt from the goal entry's parent chain: the chain
/// of cell centers, the start position appended, the whole reversed; or
/// nothing when the chain does not reach the start entry within the
/// table's length.
spec fn reconstruct_spec(es: Seq<Entry>, goal_i: int, start: WorldPos) -> Option<Seq<WorldPos>> {
    let rev = chain_positions(es, goal_i, es.len() as nat);
    if chain_end(es, goal_i, es.len() as nat) != 0 {
        None
    } else {
        let full = rev.push(start);
        Some(Seq::new(full.len(), |i: int| full[full.len() - 1 - i]))
    }
}

/// The grid cells of a snapshot of world positions.
fn cells_of(ps: &Vec<WorldPos>) -> (r: Vec<GridPos>)
    requires
        forall|i: int| 0 <= i < ps@.len() ==> valid_world_pos(#[trigger] ps@[i]),
    ensures
        r@.len() == ps@.len(),
        forall|i: int| 0 <= i < r@.len() ==> (#[trigger] r@[i]) == cell_of(ps@[i]),
        forall|i: int| 0 <= i < r@.len() ==> valid_cell(#[trigger] r@[i]),
    {
    let mut r: Vec<GridPos> = Vec::new();
    let mut i: usize = 0;
    while i < ps.len()
        invariant
            0 <= i <= ps@.len(),
            r@.len() == i,
            forall|k: int| 0 <= k < ps@.len() ==> valid_world_pos(#[trigger] ps@[k]),
            forall|k: int| 0 <= k < i ==> (#[trigger] r@[k]) == cell_of(ps@[k]),
            forall|k: int| 0 <= k < i ==> valid_cell(#[trigger] r@[k]),
        decreases ps@.len() - i,
    {
        r.push(GridPos::from_world(ps[i]));
        i = i + 1;
    }
    r
}

/// Whether the snapshot of solid cells contains `c`.
fn contains_cell(cs: &Vec<GridPos>, c: GridPos) -> (r: bool)
    ensures
        r == exists|i: int| 0 <= i < cs@.len() && (#[trigger] cs@[i]) == c,
{
    let mut i: usize = 0;
    while i < cs.len()
        invariant
            0 <= i <= cs@.len(),
            forall|j: int| 0 <= j < i ==> (#[trigger] cs@[j]) != c,
        decreases cs@.len() - i,
    {
        let e = cs[i];
        if e.x == c.x && e.y == c.y {
            return true;
        }
        i = i + 1;
    }
    false
}

/// A returned path is well formed: it starts at the literal start
/// position, every later point is the center of a valid cell, consecutive
/// points lie on adjacent cells, and the last point is the center of the
/// goal cell.
pub open spec fn searched_path_ok(p: Seq<WorldPos>, start: WorldPos, goal_c: GridPos) -> bool {
    &&& p.len() >= 2
    &&& p[0] == start
    &&& p.last() == center_of(goal_c)
    &&& cell_of(p.last()) == goal_c
    &&& forall|i: int| 0 <= i < p.len() ==> valid_world_pos(#[trigger] p[i])
    &&& forall|i: int|
        1 <= i < p.len() ==> (#[trigger] p[i]) == center_of(cell_of(p[i])) && valid_cell(
            cell_of(p[i]),
        )
    &&& forall|i: int| 0 <= i < p.len() - 1 ==> adjacent8(cell_of(#[trigger] p[i]), cell_of(p[i + 1]))
}

/// Walk the parent chain back from the goal entry and reverse it into a
/// start-to-goal waypoint list.
fn reconstruct(entries: &Vec<Entry>, goal_i: usize, start: WorldPos, end: WorldPos) -> (r: Option<
    Vec<WorldPos>,
>)
    requires
        entries_wf(entries@, cell_of(start)),
        0 <= goal_i < entries@.len(),
        entries@[goal_i as int].cell == cell_of(end),
        valid_world_pos(start),
        cell_of(start) != cell_of(end),
    ensures
        match r {
            Some(p) => searched_path_ok(p@, start, cell_of(end)) && reconstruct_spec(
                entries@,
                goal_i as int,
                start,
            ) == Some(p@),
            None => reconstruct_spec(entries@, goal_i as int, start) is None,
        },
{
    let ghost start_c = cell_of(start);
    let ghost end_c = cell_of(end);
    let ghost fuel0 = entries@.len() as nat;
    proof {
        assert(goal_i != 0);
    }
    let mut rev: Vec<WorldPos> = Vec::new();
    let mut cur: usize = goal_i;
    let mut fuel: u64 = entries.len() as u64;
    proof {
        assert(Seq::<WorldPos>::empty() + chain_positions(entries@, goal_i as int, fuel0)
            =~= chain_positions(entries@, goal_i as int, fuel0));
    }
    while cur != 0 && fuel > 0
        invariant
            entries_wf(entries@, start_c),
            start_c == cell_of(start),
            end_c == cell_of(end),
            0 <= goal_i < entries@.len(),
            entries@[goal_i as int].cell == end_c,
            goal_i != 0,
            0 <= cur < entries@.len(),
            fuel0 == entries@.len(),
            fuel <= fuel0,
            chain_positions(entries@, goal_i as int, fuel0) == rev@ + chain_positions(
                entries@,
                cur as int,
                fuel as nat,
            ),
            chain_end(entries@, goal_i as int, fuel0) == chain_end(
                entries@,
                cur as int,
                fuel as nat,
            ),
            rev@.len() == 0 ==> cur == goal_i && cur != 0,
            rev@.len() > 0 ==> rev@[0] == center_of(end_c) && cell_of(rev@[0]) == end_c,
            rev@.len() > 0 ==> adjacent8(cell_of(rev@.last()), entries@[cur as int].cell),
            forall|i: int|
                0 <= i < rev@.len() ==> (#[trigger] rev@[i]) == center_of(cell_of(rev@[i]))
                    && valid_cell(cell_of(rev@[i])) && valid_world_pos(rev@[i]),
            forall|i: int|
                0 <= i < rev@.len() - 1 ==> adjacent8(cell_of(#[trigger] rev@[i]), cell_of(
                    rev@[i + 1],
                )),
        decreases fuel,
    {
        let c = entries[cur].cell;
        proof {
            lemma_snap_idempotent(c);
            let rest = chain_positions(entries@, entries@[cur as int].parent as int, (fuel - 1) as nat);
            assert(chain_positions(entries@, cur as int, fuel as nat) == seq![center_of(c)] + rest);
            assert(rev@ + (seq![center_of(c)] + rest) =~= (rev@ + seq![center_of(c)]) + rest);
            assert(rev@ + seq![center_of(c)] =~= rev@.push(center_of(c)));
        }
        rev.push(c.to_world());
        cur = entries[cur].parent;
        fuel = fuel - 1;
    }
    proof {
        assert(chain_positions(entries@, cur as int, fuel as nat) =~= Seq::<WorldPos>::empty());
        assert(rev@ + Seq::<WorldPos>::empty() =~= rev@);
        assert(chain_positions(entries@, goal_i as int, fuel0) == rev@);
        assert(chain_end(entries@, goal_i as int, fuel0) == cur as int);
    }
    if cur != 0 {
        // the budget ran out on a malformed predecessor chain; the search
        // never builds one, so callers treat this as no path found
        return None;
    }
    rev.push(start);
    let ghost rv = rev@;
    let mut p: Vec<WorldPos> = Vec::new();
    let mut k: usize = rev.len();
    while k > 0
        invariant
            0 <= k <= rv.len(),
            rev@ == rv,
            p@.len() == rv.len() - k,
            forall|i: int| 0 <= i < p@.len() ==> (#[trigger] p@[i]) == rv[rv.len() - 1 - i],
        decreases k,
    {
        k = k - 1;
        p.push(rev[k]);
    }
    proof {
        let full = chain_positions(entries@, goal_i as int, fuel0).push(start);
        assert(full =~= rv);
        assert(p@ =~= Seq::new(full.len(), |i: int| full[full.len() - 1 - i]));
    }
    Some(p)
}

/// The mathematical result of the path search: the two-point shortcut
/// within the direct-dig threshold, and otherwise the outcome of running
/// the expansion steps on the initial state until the goal is found, the
/// frontier is exhausted, or the exploration budget is spent. A function
/// of the start, the goal, and the obstacle snapshot alone.
pub closed spec fn find_path_result(
    start: WorldPos,
    end: WorldPos,
    solid: Seq<WorldPos>,
) -> Option<Seq<WorldPos>> {
    let start_c = cell_of(start);
    let end_c = cell_of(end);
    let d2 = cell_dist_sq(start_c, end_c);
    if within_direct_dig(d2) {
        Some(seq![start, end])
    } else {
        let init = SearchState {
            es: seq![Entry { cell: start_c, g: 0, parent: 0, closed: false }],
            open: seq![OpenNode { cell: start_c, f: 0 }],
        };
        match run_search(init, end_c, d2, cells_of_points(solid), SEARCH_FUEL as nat) {
            SearchOutcome::Found(es, ci) => reconstruct_spec(es, ci, start),
            SearchOutcome::Failed => None,
            SearchOutcome::Running(s) => None,
        }
    }
}

/// Determinism of the pathfinder: its result is a function of the
/// obstacle snapshot, start, and goal alone, so repeated calls with the
/// same arguments return identical waypoints, and therefore identical
/// total cost.
pub proof fn lemma_find_path_deterministic(
    start: WorldPos,
    end: WorldPos,
    solid: Seq<WorldPos>,
    r1: Option<Seq<WorldPos>>,
    r2: Option<Seq<WorldPos>>,
)
    requires
        r1 == find_path_result(start, end, solid),
        r2 == find_path_result(start, end, solid),
    ensures
        r1 == r2,
{
}

/// Find a waypoint path from `start` to `end` over a snapshot of solid
/// positions. Within the direct-dig threshold the result is exactly
/// `[start, end]` with no search; otherwise a returned path starts at
/// `start`, ends on the goal cell's center, and advances one adjacent cell
/// at a time. `None` signals that no path was found, which happens only
/// beyond the direct-dig threshold. The result equals `find_path_result`
/// of the arguments, so the search is deterministic.
pub fn find_path(start: WorldPos, end: WorldPos, solid_tiles: &Vec<WorldPos>) -> (r: Option<
    Vec<WorldPos>,
>)
    requires
        valid_world_pos(start),
        valid_world_pos(end),
        forall|i: int| 0 <= i < solid_tiles@.len() ==> valid_world_pos(#[trigger] solid_tiles@[i]),
    ensures
        within_direct_dig(cell_dist_sq(cell_of(start), cell_of(end))) ==> r is Some,
        match r {
            Some(p) => {
                if within_direct_dig(cell_dist_sq(cell_of(start), cell_of(end))) {
                    p@.len() == 2 && p@[0] == start && p@[1] == end
                } else {
                    searched_path_ok(p@, start, cell_of(end))
                }
            },
            None => !within_direct_dig(cell_dist_sq(cell_of(start), cell_of(end))),
        },
        match r {
            Some(p) => find_path_result(start, end, solid_tiles@) == Some(p@),
            None => find_path_result(start, end, solid_tiles@) is None,
        },
{
    let start_c = GridPos::from_world(start);
    let end_c = GridPos::from_world(end);
    let d2: i64 = start_c.dist_sq(&end_c);
    if 64 * d2 <= MAX_DIG_DISTANCE * MAX_DIG_DISTANCE {
        let mut p: Vec<WorldPos> = Vec::new();
        p.push(start);
        p.push(end);
        proof {
            assert(p@ =~= seq![start, end]);
        }
        return Some(p);
    }
    let obstacles = cells_of(solid_tiles);
    let mut entries: Vec<Entry> = Vec::new();
    entries.push(Entry { cell: start_c, g: 0, parent: 0, closed: false });
    let mut open: Vec<OpenNode> = Vec::new();
    open.push(OpenNode { cell: start_c, f: 0 });
    let ghost init = SearchState { es: entries@, open: open@ };
    let ghost obs = cells_of_points(solid_tiles@);
    proof {
        assert(obstacles@ =~= obs);
        assert(init.es =~= seq![Entry { cell: start_c, g: 0, parent: 0, closed: false }]);
        assert(init.open =~= seq![OpenNode { cell: start_c, f: 0 }]);
    }
    let mut fuel: u64 = SEARCH_FUEL;
    while fuel > 0
        invariant
            valid_world_pos(start),
            valid_world_pos(end),
            start_c == cell_of(start),
            end_c == cell_of(end),
            valid_cell(start_c),
            valid_cell(end_c),
            d2 == cell_dist_sq(start_c, end_c),
            0 <= d2 <= 125_000_000_000,
            !within_direct_dig(d2 as int),
            entries_wf(entries@, start_c),
            open_ok(open@, entries@),
            fuel <= SEARCH_FUEL,
            obstacles@ == obs,
            obs == cells_of_points(solid_tiles@),
            init.es == seq![Entry { cell: start_c, g: 0, parent: 0, closed: false }],
            init.open == seq![OpenNode { cell: start_c, f: 0 }],
            run_search(init, end_c, d2 as int, obs, (SEARCH_FUEL - fuel) as nat)
                == SearchOutcome::Running(SearchState { es: entries@, open: open@ }),
        decreases fuel,
    {
        let ghost k: nat = (SEARCH_FUEL - fuel) as nat;
        let ghost prev = SearchState { es: entries@, open: open@ };
        proof {
            assert(run_search(init, end_c, d2 as int, obs, (k + 1) as nat) == search_step(
                prev,
                end_c,
                d2 as int,
                obs,
            ));
        }
        fuel = fuel - 1;
        let cur = match pop_min(&mut open) {
            None => {
                proof {
                    assert(search_step(prev, end_c, d2 as int, obs) == SearchOutcome::Failed);
                    lemma_run_absorbs(init, end_c, d2 as int, obs, (k + 1) as nat, SEARCH_FUEL as nat);
                }
                return None;
            },
            Some(n) => n,
        };
        let ci = match find_entry(&entries, cur.cell) {
            None => {
                proof {
                    assert(cur == prev.open[first_min_idx(prev.open)]);
                    assert(search_step(prev, end_c, d2 as int, obs) == SearchOutcome::Failed);
                    lemma_run_absorbs(init, end_c, d2 as int, obs, (k + 1) as nat, SEARCH_FUEL as nat);
                }
                return None;
            },
            Some(i) => i,
        };
        if cur.cell.x == end_c.x && cur.cell.y == end_c.y {
            proof {
                if cell_of(start) == cell_of(end) {
                    let gx = start_c.x as int;
                    let gy = start_c.y as int;
                    assert((gx - gx) * (gx - gx) + (gy - gy) * (gy - gy) == 0) by (nonlinear_arith);
                    assert(cell_dist_sq(start_c, end_c) == 0);
                    assert(within_direct_dig(0));
                }
                assert(cell_of(start) != cell_of(end));
                assert(cur == prev.open[first_min_idx(prev.open)]);
                assert(cur.cell == end_c);
                assert(search_step(prev, end_c, d2 as int, obs) == SearchOutcome::Found(
                    entries@,
                    ci as int,
                ));
                lemma_run_absorbs(init, end_c, d2 as int, obs, (k + 1) as nat, SEARCH_FUEL as nat);
            }
            return reconstruct(&entries, ci, start, end);
        }
        let mut e = entries[ci];
        e.closed = true;
        let ghost pre = entries@;
        entries[ci] = e;
        proof {
            assert forall|j: int| 0 <= j < open@.len() implies has_entry(
                entries@,
                (#[trigger] open@[j]).cell,
            ) by {
                lemma_has_entry_update(pre, ci as int, e, open@[j].cell);
            }
        }
        let cur_g = entries[ci].g;
        expand_neighbors(&mut entries, &mut open, &obstacles, ci, cur_g, end_c, d2, Ghost(start_c));
        proof {
            assert(cur == prev.open[first_min_idx(prev.open)]);
            assert(cur.cell != end_c);
            assert((SearchState { es: entries@, open: open@ }) == process_upto(
                SearchState { es: pre.update(ci as int, e), open: prev.open.remove(first_min_idx(prev.open)) },
                ci as int,
                cur_g as int,
                end_c,
                d2 as int,
                obs,
                9,
            ));
            assert(search_step(prev, end_c, d2 as int, obs) == SearchOutcome::Running(
                SearchState { es: entries@, open: open@ },
            ));
        }
    }
    None
}

/// A membership witness in either direction bridges the searched form of
/// `contains`.
proof fn lemma_contains_bridge(cs: Seq<GridPos>, c: GridPos)
    ensures
        (exists|i: int| 0 <= i < cs.len() && (#[trigger] cs[i]) == c) == cs.contains(c),
{
    if exists|i: int| 0 <= i < cs.len() && (#[trigger] cs[i]) == c {
        let i = choose|i: int| 0 <= i < cs.len() && (#[trigger] cs[i]) == c;
        assert(cs[i] == c);
        assert(cs.contains(c));
    }
    if cs.contains(c) {
        let i = choose|i: int| 0 <= i < cs.len() && cs[i] == c;
        assert(0 <= i < cs.len() && (#[trigger] cs[i]) == c);
    }
}

/// Expand the eight neighbors of the entry at `ci`, relaxing their costs
/// and growing the frontier: exactly the `process_upto` sweep of the
/// neighborhood, as the search loops of `find_path` and
/// `find_nearest_accessible_point` require.
fn expand_neighbors(
    entries: &mut Vec<Entry>,
    open: &mut Vec<OpenNode>,
    obstacles: &Vec<GridPos>,
    ci: usize,
    cur_g: i64,
    goal_c: GridPos,
    trip_d2: i64,
    Ghost(start_c): Ghost<GridPos>,
)
    requires
        entries_wf(old(entries)@, start_c),
        open_ok(old(open)@, old(entries)@),
        0 <= ci < old(entries)@.len(),
        cur_g == old(entries)@[ci as int].g,
        valid_cell(goal_c),
        0 <= trip_d2 <= 125_000_000_000,
    ensures
        entries_wf(final(entries)@, start_c),
        open_ok(final(open)@, final(entries)@),
        final(entries)@.len() >= old(entries)@.len(),
        forall|i: int|
            0 <= i < old(entries)@.len() ==> (#[trigger] final(entries)@[i]).cell
                == old(entries)@[i].cell,
        (SearchState { es: final(entries)@, open: final(open)@ }) == process_upto(
            SearchState { es: old(entries)@, open: old(open)@ },
            ci as int,
            cur_g as int,
            goal_c,
            trip_d2 as int,
            obstacles@,
            9,
        ),
{
    let ghost st0 = SearchState { es: old(entries)@, open: old(open)@ };
    let cur_cell = entries[ci].cell;
    let mut dxk: i32 = 0;
    while dxk < 3
        invariant
            entries_wf(entries@, start_c),
            open_ok(open@, entries@),
            0 <= ci < entries@.len(),
            cur_cell == entries@[ci as int].cell,
            valid_cell(cur_cell),
            valid_cell(goal_c),
            0 <= trip_d2 <= 125_000_000_000,
            0 <= cur_g <= G_CAP,
            0 <= dxk <= 3,
            entries@.len() >= st0.es.len(),
            forall|i: int|
                0 <= i < st0.es.len() ==> (#[trigger] entries@[i]).cell == st0.es[i].cell,
            (SearchState { es: entries@, open: open@ }) == process_upto(
                st0,
                ci as int,
                cur_g as int,
                goal_c,
                trip_d2 as int,
                obstacles@,
                3 * dxk as int,
            ),
        decreases 3 - dxk,
    {
        let mut dyk: i32 = 0;
        while dyk < 3
            invariant
                entries_wf(entries@, start_c),
                open_ok(open@, entries@),
                0 <= ci < entries@.len(),
                cur_cell == entries@[ci as int].cell,
                valid_cell(cur_cell),
                valid_cell(goal_c),
                0 <= trip_d2 <= 125_000_000_000,
                0 <= cur_g <= G_CAP,
                0 <= dxk < 3,
                0 <= dyk <= 3,
                entries@.len() >= st0.es.len(),
                forall|i: int|
                    0 <= i < st0.es.len() ==> (#[trigger] entries@[i]).cell == st0.es[i].cell,
                (SearchState { es: entries@, open: open@ }) == process_upto(
                    st0,
                    ci as int,
                    cur_g as int,
                    goal_c,
                    trip_d2 as int,
                    obstacles@,
                    3 * dxk as int + dyk as int,
                ),
            decreases 3 - dyk,
        {
            let ghost k: int = 3 * dxk as int + dyk as int;
            let ghost prev = SearchState { es: entries@, open: open@ };
            let dx = dxk - 1;
            let dy = dyk - 1;
            proof {
                assert((k + 1 - 1) / 3 - 1 == dx as int && (k + 1 - 1) % 3 - 1 == dy as int);
                assert(process_upto(
                    st0,
                    ci as int,
                    cur_g as int,
                    goal_c,
                    trip_d2 as int,
                    obstacles@,
                    k + 1,
                ) == process_neighbor(
                    prev,
                    ci as int,
                    cur_g as int,
                    goal_c,
                    trip_d2 as int,
                    obstacles@,
                    dx as int,
                    dy as int,
                ));
            }
            if !(dx == 0 && dy == 0) {
                let nx = cur_cell.x + dx;
                let ny = cur_cell.y + dy;
                if nx >= -CELL_BOUND && nx <= CELL_BOUND && ny >= -CELL_BOUND && ny <= CELL_BOUND
                    && cur_g <= G_CAP - 34 {
                    let ncell = GridPos { x: nx, y: ny };
                    proof {
                        assert(adjacent8(ncell, cur_cell));
                        lemma_contains_bridge(obstacles@, ncell);
                    }
                    match find_entry(&entries, ncell) {
                        Some(ei) => {
                            if !entries[ei].closed {
                                let blocked = contains_cell(obstacles, ncell);
                                let cost = step_cost(cur_cell, ncell, blocked, trip_d2);
                                let new_g = cur_g + cost;
                                if new_g < entries[ei].g {
                                    proof {
                                        assert(ei != 0) by {
                                            assert(prev.es[0].g == 0 && new_g >= 10);
                                        }
                                        assert(ei as int != ci as int) by {
                                            assert(prev.es[ei as int].cell == ncell);
                                            assert(ncell != cur_cell);
                                        }
                                    }
                                    entries[ei] = Entry {
                                        cell: ncell,
                                        g: new_g,
                                        parent: ci,
                                        closed: false,
                                    };
                                    let h = heuristic(ncell, goal_c);
                                    open.push(OpenNode { cell: ncell, f: new_g + h });
                                    proof {
                                        let e = Entry {
                                            cell: ncell,
                                            g: new_g,
                                            parent: ci,
                                            closed: false,
                                        };
                                        assert forall|j: int| 0 <= j < open@.len() implies has_entry(
                                            entries@,
                                            (#[trigger] open@[j]).cell,
                                        ) by {
                                            if j < open@.len() - 1 {
                                                lemma_has_entry_update(prev.es, ei as int, e, open@[j].cell);
                                            } else {
                                                assert(entries@[ei as int].cell == ncell);
                                            }
                                        }
                                    }
                                }
                            }
                        },
                        None => {
                            let blocked = contains_cell(obstacles, ncell);
                            let cost = step_cost(cur_cell, ncell, blocked, trip_d2);
                            let new_g = cur_g + cost;
                            entries.push(Entry { cell: ncell, g: new_g, parent: ci, closed: false });
                            let h = heuristic(ncell, goal_c);
                            open.push(OpenNode { cell: ncell, f: new_g + h });
                            proof {
                                let e = Entry { cell: ncell, g: new_g, parent: ci, closed: false };
                                assert(entries@ == prev.es.push(e));
                                assert forall|j: int| 0 <= j < open@.len() implies has_entry(
                                    entries@,
                                    (#[trigger] open@[j]).cell,
                                ) by {
                                    if j < open@.len() - 1 {
                                        lemma_has_entry_push(prev.es, e, open@[j].cell);
                                    } else {
                                        assert(entries@[prev.es.len() as int].cell == ncell);
                                    }
                                }
                                assert forall|i: int, j: int|
                                    0 <= i < j < entries@.len() implies (#[trigger] entries@[i]).cell
                                        != (#[trigger] entries@[j]).cell by {
                                    if j == entries@.len() - 1 {
                                        assert(!has_entry(prev.es, ncell));
                                        assert(prev.es[i].cell != ncell);
                                    }
                                }
                            }
                        },
                    }
                }
            }
            proof {
                assert(SearchState { es: entries@, open: open@ } =~= process_neighbor(
                    prev,
                    ci as int,
                    cur_g as int,
                    goal_c,
                    trip_d2 as int,
                    obstacles@,
                    dx as int,
                    dy as int,
                ));
            }
            dyk = dyk + 1;
        }
        dxk = dxk + 1;
    }
}

/// The cells a sequence of waypoints passes through, in order.
pub open spec fn cells_of_points(ps: Seq<WorldPos>) -> Seq<GridPos> {
    ps.map_values(|p: WorldPos| cell_of(p))
}

/// Total cost of a waypoint path under the search's cost model: for each
/// step onto a new cell, the move cost plus the digging surcharge when the
/// entered cell is solid, the surcharge scaled by the squared cell
/// distance between the path's endpoints.
pub open spec fn spec_path_cost(cells: Seq<GridPos>, solid: Seq<GridPos>, trip_d2: int) -> int
    decreases cells.len(),
{
    if cells.len() < 2 {
        0
    } else {
        spec_path_cost(cells.drop_last(), solid, trip_d2) + (
        if cells[cells.len() - 2] == cells[cells.len() - 1] {
            0
        } else {
            crate::cost::spec_step_cost(
                cells[cells.len() - 2],
                cells[cells.len() - 1],
                solid.contains(cells[cells.len() - 1]),
                trip_d2,
            )
        })
    }
}

/// Total cost of a waypoint path over a snapshot of solid positions, under
/// the same cost model the searches minimize. Repeated calls on the same
/// arguments return the same cost, so two equal paths always price alike.
pub fn path_cost(path: &Vec<WorldPos>, solid_tiles: &Vec<WorldPos>) -> (r: i64)
    requires
        forall|i: int| 0 <= i < path@.len() ==> valid_world_pos(#[trigger] path@[i]),
        forall|i: int| 0 <= i < solid_tiles@.len() ==> valid_world_pos(#[trigger] solid_tiles@[i]),
        path@.len() <= 100_000_000,
    ensures
        path@.len() >= 2 ==> r == spec_path_cost(
            cells_of_points(path@),
            cells_of_points(solid_tiles@),
            cell_dist_sq(cell_of(path@[0]), cell_of(path@.last())),
        ),
        path@.len() < 2 ==> r == 0,
{
    if path.len() < 2 {
        return 0;
    }
    let solid_cells = cells_of(solid_tiles);
    let first = GridPos::from_world(path[0]);
    let last = GridPos::from_world(path[path.len() - 1]);
    let trip_d2: i64 = first.dist_sq(&last);
    let ghost cells = cells_of_points(path@);
    let ghost scells = cells_of_points(solid_tiles@);
    proof {
        assert(solid_cells@ =~= scells);
    }
    let mut acc: i64 = 0;
    let mut i: usize = 1;
    while i < path.len()
        invariant
            1 <= i <= path@.len(),
            2 <= path@.len() <= 100_000_000,
            forall|k: int| 0 <= k < path@.len() ==> valid_world_pos(#[trigger] path@[k]),
            cells == cells_of_points(path@),
            scells == cells_of_points(solid_tiles@),
            solid_cells@ == scells,
            0 <= trip_d2 <= 125_000_000_000,
            0 <= acc <= 34 * i,
            acc == spec_path_cost(cells.take(i as int), scells, trip_d2 as int),
        decreases path@.len() - i,
    {
        let a = GridPos::from_world(path[i - 1]);
        let b = GridPos::from_world(path[i]);
        proof {
            assert(cells.take(i + 1).drop_last() =~= cells.take(i as int));
            assert(cells.take(i + 1)[i as int] == cells[i as int]);
            assert(cells.take(i + 1)[i - 1] == cells[i - 1]);
        }
        if a.x == b.x && a.y == b.y {
            proof {
                assert(cells[i - 1] == cells[i as int]);
            }
        } else {
            let blocked = contains_cell(&solid_cells, b);
            proof {
                assert(blocked == scells.contains(cells[i as int])) by {
                    if blocked {
                        let k = choose|k: int|
                            0 <= k < solid_cells@.len() && (#[trigger] solid_cells@[k]) == b;
                        assert(scells[k] == b);
                    }
                    if scells.contains(cells[i as int]) {
                        let k = choose|k: int|
                            0 <= k < scells.len() && (#[trigger] scells[k]) == cells[i as int];
                        assert(solid_cells@[k] == b);
                    }
                }
            }
            let c = crate::cost::step_cost(a, b, blocked, trip_d2);
            acc = acc + c;
        }
        i = i + 1;
    }
    proof {
        assert(cells.take(path@.len() as int) =~= cells);
    }
    acc
}

/// A goal-relaxed search state: the expansion state plus the closest
/// visited cell so far and its squared cell distance to the target.
#[verifier::ext_equal]
struct NearState {
    st: SearchState,
    nearest: GridPos,
    min_d2: int,
}

/// What one goal-relaxed step leaves behind: a state to keep searching
/// from, or the answer cell once the frontier is exhausted or a visited
/// cell is effectively at the target.
enum NearOutcome {
    Running(NearState),
    Done(GridPos),
}

/// One goal-relaxed expansion step: pop the earliest lowest-priority
/// frontier node, remember it if it is the closest to the target yet,
/// stop once effectively arrived, and otherwise relax its neighbors.
spec fn nearest_step(
    ns: NearState,
    target: GridPos,
    trip_d2: int,
    obstacles: Seq<GridPos>,
) -> NearOutcome {
    if ns.st.open.len() == 0 {
        NearOutcome::Done(ns.nearest)
    } else {
        let n = ns.st.open[first_min_idx(ns.st.open)];
        let open1 = ns.st.open.remove(first_min_idx(ns.st.open));
        match find_entry_spec(ns.st.es, n.cell) {
            None => NearOutcome::Done(ns.nearest),
            Some(ci) => {
                let dt2 = cell_dist_sq(n.cell, target);
                let near1 = if dt2 < ns.min_d2 {
                    n.cell
                } else {
                    ns.nearest
                };
                let mind1 = if dt2 < ns.min_d2 {
                    dt2
                } else {
                    ns.min_d2
                };
                if dt2 < NEAR_TARGET_CELL_DIST_SQ {
                    NearOutcome::Done(near1)
                } else {
                    let marked = Entry {
                        cell: ns.st.es[ci].cell,
                        g: ns.st.es[ci].g,
                        parent: ns.st.es[ci].parent,
                        closed: true,
                    };
                    NearOutcome::Running(
                        NearState {
                            st: process_upto(
                                SearchState { es: ns.st.es.update(ci, marked), open: open1 },
                                ci,
                                ns.st.es[ci].g as int,
                                target,
                                trip_d2,
                                obstacles,
                                9,
                            ),
                            nearest: near1,
                            min_d2: mind1,
                        },
                    )
                }
            },
        }
    }
}

/// Up to `n` goal-relaxed steps; a finished outcome absorbs further steps.
spec fn run_nearest(
    ns: NearState,
    target: GridPos,
    trip_d2: int,
    obstacles: Seq<GridPos>,
    n: nat,
) -> NearOutcome
    decreases n,
{
    if n == 0 {
        NearOutcome::Running(ns)
    } else {
        match run_nearest(ns, target, trip_d2, obstacles, (n - 1) as nat) {
            NearOutcome::Running(s) => nearest_step(s, target, trip_d2, obstacles),
            o => o,
        }
    }
}

/// Once a goal-relaxed run has finished, more steps change nothing.
proof fn lemma_run_nearest_absorbs(
    ns: NearState,
    target: GridPos,
    trip_d2: int,
    obstacles: Seq<GridPos>,
    k: nat,
    n: nat,
)
    requires
        k <= n,
        !(run_nearest(ns, target, trip_d2, obstacles, k) is Running),
    ensures
        run_nearest(ns, target, trip_d2, obstacles, n) == run_nearest(
            ns,
            target,
            trip_d2,
            obstacles,
            k,
        ),
    decreases n,
{
    if n > k {
        lemma_run_nearest_absorbs(ns, target, trip_d2, obstacles, k, (n - 1) as nat);
    }
}

/// The mathematical result of the goal-relaxed search: the literal target
/// within the direct-dig threshold, and otherwise the center of the
/// closest visited cell when the run stops or its budget runs out. A
/// function of the start, the target, and the obstacle snapshot alone.
pub closed spec fn find_nearest_result(
    start: WorldPos,
    target: WorldPos,
    solid: Seq<WorldPos>,
) -> WorldPos {
    let start_c = cell_of(start);
    let target_c = cell_of(target);
    let d2 = cell_dist_sq(start_c, target_c);
    if within_direct_dig(d2) {
        target
    } else {
        let init = NearState {
            st: SearchState {
                es: seq![Entry { cell: start_c, g: 0, parent: 0, closed: false }],
                open: seq![OpenNode { cell: start_c, f: 0 }],
            },
            nearest: start_c,
            min_d2: d2,
        };
        match run_nearest(init, target_c, d2, cells_of_points(solid), SEARCH_FUEL as nat) {
            NearOutcome::Done(c) => center_of(c),
            NearOutcome::Running(ns) => center_of(ns.nearest),
        }
    }
}

/// Determinism of the goal-relaxed search: its result is a function of
/// the obstacle snapshot, start, and target alone, so repeated calls with
/// the same arguments return the same accessible point.
pub proof fn lemma_find_nearest_deterministic(
    start: WorldPos,
    target: WorldPos,
    solid: Seq<WorldPos>,
    r1: WorldPos,
    r2: WorldPos,
)
    requires
        r1 == find_nearest_result(start, target, solid),
        r2 == find_nearest_result(start, target, solid),
    ensures
        r1 == r2,
{
}

/// Find the accessible point nearest to `target`, searching outward from
/// `start`: the center of the visited cell with the least cell distance to
/// the target, never farther from the target than the start itself is.
/// Within the direct-dig threshold the literal target is returned at once,
/// signaling that digging straight there beats routing. Some point is
/// always returned, and it equals `find_nearest_result` of the arguments,
/// so the search is deterministic.
pub fn find_nearest_accessible_point(
    start: WorldPos,
    target: WorldPos,
    solid_tiles: &Vec<WorldPos>,
) -> (r: Option<WorldPos>)
    requires
        valid_world_pos(start),
        valid_world_pos(target),
        forall|i: int| 0 <= i < solid_tiles@.len() ==> valid_world_pos(#[trigger] solid_tiles@[i]),
    ensures
        r == Some(find_nearest_result(start, target, solid_tiles@)),
        match r {
            Some(p) => {
                &&& valid_world_pos(p)
                &&& if within_direct_dig(cell_dist_sq(cell_of(start), cell_of(target))) {
                    p == target
                } else {
                    &&& p == center_of(cell_of(p))
                    &&& valid_cell(cell_of(p))
                    &&& cell_dist_sq(cell_of(p), cell_of(target)) <= cell_dist_sq(
                        cell_of(start),
                        cell_of(target),
                    )
                }
            },
            None => false,
        },
{
    let start_c = GridPos::from_world(start);
    let target_c = GridPos::from_world(target);
    let d2: i64 = start_c.dist_sq(&target_c);
    if 64 * d2 <= MAX_DIG_DISTANCE * MAX_DIG_DISTANCE {
        return Some(target);
    }
    let obstacles = cells_of(solid_tiles);
    let mut entries: Vec<Entry> = Vec::new();
    entries.push(Entry { cell: start_c, g: 0, parent: 0, closed: false });
    let mut open: Vec<OpenNode> = Vec::new();
    open.push(OpenNode { cell: start_c, f: 0 });
    let mut nearest_c: GridPos = start_c;
    let mut min_d2: i64 = d2;
    let ghost init = NearState {
        st: SearchState { es: entries@, open: open@ },
        nearest: start_c,
        min_d2: d2 as int,
    };
    let ghost obs = cells_of_points(solid_tiles@);
    proof {
        assert(obstacles@ =~= obs);
        assert(init.st.es =~= seq![Entry { cell: start_c, g: 0, parent: 0, closed: false }]);
        assert(init.st.open =~= seq![OpenNode { cell: start_c, f: 0 }]);
    }
    let mut fuel: u64 = SEARCH_FUEL;
    while fuel > 0
        invariant_except_break
            run_nearest(init, target_c, d2 as int, obs, (SEARCH_FUEL - fuel) as nat)
                == NearOutcome::Running(
                NearState {
                    st: SearchState { es: entries@, open: open@ },
                    nearest: nearest_c,
                    min_d2: min_d2 as int,
                },
            ),
        invariant
            valid_world_pos(start),
            valid_world_pos(target),
            start_c == cell_of(start),
            target_c == cell_of(target),
            valid_cell(start_c),
            valid_cell(target_c),
            d2 == cell_dist_sq(start_c, target_c),
            0 <= d2 <= 125_000_000_000,
            !within_direct_dig(d2 as int),
            entries_wf(entries@, start_c),
            open_ok(open@, entries@),
            valid_cell(nearest_c),
            min_d2 == cell_dist_sq(nearest_c, target_c),
            min_d2 <= d2,
            fuel <= SEARCH_FUEL,
            obstacles@ == obs,
            obs == cells_of_points(solid_tiles@),
            init.st.es == seq![Entry { cell: start_c, g: 0, parent: 0, closed: false }],
            init.st.open == seq![OpenNode { cell: start_c, f: 0 }],
            init.nearest == start_c,
            init.min_d2 == d2 as int,
        ensures
            valid_cell(nearest_c),
            cell_dist_sq(nearest_c, target_c) <= d2,
            start_c == cell_of(start),
            target_c == cell_of(target),
            !within_direct_dig(d2 as int),
            d2 == cell_dist_sq(start_c, target_c),
            (match run_nearest(init, target_c, d2 as int, obs, SEARCH_FUEL as nat) {
                NearOutcome::Done(c) => c,
                NearOutcome::Running(ns) => ns.nearest,
            }) == nearest_c,
            obs == cells_of_points(solid_tiles@),
            init.st.es == seq![Entry { cell: start_c, g: 0, parent: 0, closed: false }],
            init.st.open == seq![OpenNode { cell: start_c, f: 0 }],
            init.nearest == start_c,
            init.min_d2 == d2 as int,
        decreases fuel,
    {
        let ghost k: nat = (SEARCH_FUEL - fuel) as nat;
        let ghost prev = NearState {
            st: SearchState { es: entries@, open: open@ },
            nearest: nearest_c,
            min_d2: min_d2 as int,
        };
        proof {
            assert(run_nearest(init, target_c, d2 as int, obs, (k + 1) as nat) == nearest_step(
                prev,
                target_c,
                d2 as int,
                obs,
            ));
        }
        fuel = fuel - 1;
        let cur = match pop_min(&mut open) {
            None => {
                proof {
                    assert(nearest_step(prev, target_c, d2 as int, obs) == NearOutcome::Done(
                        nearest_c,
                    ));
                    lemma_run_nearest_absorbs(
                        init,
                        target_c,
                        d2 as int,
                        obs,
                        (k + 1) as nat,
                        SEARCH_FUEL as nat,
                    );
                }
                break;
            },
            Some(n) => n,
        };
        let ci = match find_entry(&entries, cur.cell) {
            None => {
                proof {
                    assert(cur == prev.st.open[first_min_idx(prev.st.open)]);
                    assert(nearest_step(prev, target_c, d2 as int, obs) == NearOutcome::Done(
                        nearest_c,
                    ));
                    lemma_run_nearest_absorbs(
                        init,
                        target_c,
                        d2 as int,
                        obs,
                        (k + 1) as nat,
                        SEARCH_FUEL as nat,
                    );
                }
                break;
            },
            Some(i) => i,
        };
        let dt2 = cur.cell.dist_sq(&target_c);
        if dt2 < min_d2 {
            min_d2 = dt2;
            nearest_c = cur.cell;
        }
        if dt2 < NEAR_TARGET_CELL_DIST_SQ {
            proof {
                assert(cur == prev.st.open[first_min_idx(prev.st.open)]);
                assert(nearest_step(prev, target_c, d2 as int, obs) == NearOutcome::Done(
                    nearest_c,
                ));
                lemma_run_nearest_absorbs(
                    init,
                    target_c,
                    d2 as int,
                    obs,
                    (k + 1) as nat,
                    SEARCH_FUEL as nat,
                );
            }
            break;
        }
        let mut e = entries[ci];
        e.closed = true;
        let ghost pre = entries@;
        entries[ci] = e;
        proof {
            assert forall|j: int| 0 <= j < open@.len() implies has_entry(
                entries@,
                (#[trigger] open@[j]).cell,
            ) by {
                lemma_has_entry_update(pre, ci as int, e, open@[j].cell);
            }
        }
        let cur_g = entries[ci].g;
        expand_neighbors(&mut entries, &mut open, &obstacles, ci, cur_g, target_c, d2, Ghost(start_c));
        proof {
            assert(cur == prev.st.open[first_min_idx(prev.st.open)]);
            assert((SearchState { es: entries@, open: open@ }) == process_upto(
                SearchState {
                    es: pre.update(ci as int, e),
                    open: prev.st.open.remove(first_min_idx(prev.st.open)),
                },
                ci as int,
                cur_g as int,
                target_c,
                d2 as int,
                obs,
                9,
            ));
            assert(nearest_step(prev, target_c, d2 as int, obs) == NearOutcome::Running(
                NearState {
                    st: SearchState { es: entries@, open: open@ },
                    nearest: nearest_c,
                    min_d2: min_d2 as int,
                },
            ));
        }
    }
    proof {
        lemma_snap_idempotent(nearest_c);
        if run_nearest(init, target_c, d2 as int, obs, SEARCH_FUEL as nat) is Running {
        }
        assert(find_nearest_result(start, target, solid_tiles@) == center_of(nearest_c));
    }
    Some(nearest_c.to_world())
}

} // verus!
