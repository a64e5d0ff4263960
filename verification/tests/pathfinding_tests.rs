use ant_farm::{find_nearest_accessible_point, find_path, path_cost, GridPos, WorldPos};
use std::collections::HashMap;

fn cell(p: WorldPos) -> GridPos {
    GridPos::from_world(p)
}

/// The search's documented step cost, recomputed independently: 10 per
/// axis-aligned step, 14 per diagonal, plus 20 for entering a solid cell
/// when the overall trip is beyond the direct-dig threshold.
fn step_cost(from: GridPos, to: GridPos, solid: &[GridPos]) -> i64 {
    let mv = if from.x != to.x && from.y != to.y { 14 } else { 10 };
    let dig = if solid.contains(&to) { 20 } else { 0 };
    mv + dig
}

fn path_cost_local(path: &[WorldPos], solid_cells: &[GridPos]) -> i64 {
    let mut total = 0i64;
    for w in path.windows(2) {
        let (a, b) = (cell(w[0]), cell(w[1]));
        if a != b {
            total += step_cost(a, b, solid_cells);
        }
    }
    total
}

#[test]
fn direct_dig_shortcut_returns_start_and_goal() {
    // six cells apart with an 8-unit cell and a 50-unit threshold: 48 <= 50
    let start = WorldPos { x: 0, y: 0 };
    let goal = WorldPos { x: 48, y: 0 };
    let solid = vec![WorldPos { x: 24, y: 0 }];
    let p = find_path(start, goal, &solid).expect("short hop must yield a path");
    assert_eq!(p, vec![start, goal]);
}

#[test]
fn just_beyond_the_dig_threshold_a_search_runs() {
    // seven cells apart: 56 > 50, so the two-point shortcut no longer applies
    let start = WorldPos { x: 0, y: 0 };
    let goal = WorldPos { x: 56, y: 0 };
    let p = find_path(start, goal, &Vec::new()).expect("open ground must yield a path");
    assert!(p.len() > 2);
    assert_eq!(p[0], start);
    assert_eq!(*p.last().unwrap(), WorldPos { x: 56, y: 0 });
}

#[test]
fn nearest_point_shortcut_returns_the_literal_target() {
    let start = WorldPos { x: 0, y: 0 };
    let target = WorldPos { x: 40, y: 16 };
    let solid = vec![WorldPos { x: 16, y: 8 }];
    let r = find_nearest_accessible_point(start, target, &solid);
    assert_eq!(r, Some(target));
}

#[test]
fn path_always_exists_on_empty_ground() {
    // with no obstacles, any two distinct cells are connected
    let cases = [
        (WorldPos { x: 0, y: 0 }, WorldPos { x: 120, y: 80 }),
        (WorldPos { x: -160, y: 40 }, WorldPos { x: 96, y: -72 }),
        (WorldPos { x: 200, y: 200 }, WorldPos { x: 200, y: 120 }),
    ];
    for (start, goal) in cases {
        let p = find_path(start, goal, &Vec::new()).expect("no obstacles, a path must exist");
        assert_eq!(p[0], start);
        assert_eq!(*p.last().unwrap(), cell(goal).to_world());
        for w in p.windows(2) {
            let (a, b) = (cell(w[0]), cell(w[1]));
            assert!((a.x - b.x).abs() <= 1 && (a.y - b.y).abs() <= 1);
        }
    }
}

#[test]
fn enclosed_goal_is_still_reached_by_digging() {
    // a ring of solid tiles one cell thick around the goal cell (10, 0):
    // obstacles are penalized, not forbidden, so a path still exists
    let start = WorldPos { x: 0, y: 0 };
    let goal = WorldPos { x: 80, y: 0 };
    let mut solid = Vec::new();
    for cx in 9i32..=11 {
        for cy in -1i32..=1 {
            if !(cx == 10 && cy == 0) {
                solid.push(WorldPos { x: cx * 8, y: cy * 8 });
            }
        }
    }
    let p = find_path(start, goal, &solid).expect("digging through the ring must be allowed");
    assert_eq!(p[0], start);
    assert_eq!(*p.last().unwrap(), goal);
}

#[test]
fn repeated_searches_agree() {
    // determinism: a fixed snapshot, start and goal give the same answer
    // (and therefore the same total cost) on every call
    let start = WorldPos { x: 0, y: 0 };
    let goal = WorldPos { x: 56, y: 16 };
    let mut solid = Vec::new();
    for cy in -1i32..=5 {
        solid.push(WorldPos { x: 24, y: cy * 8 });
    }
    let p1 = find_path(start, goal, &solid);
    let p2 = find_path(start, goal, &solid);
    assert_eq!(p1, p2);
    assert_eq!(
        path_cost(p1.as_ref().unwrap(), &solid),
        path_cost(p2.as_ref().unwrap(), &solid)
    );
    let n1 = find_nearest_accessible_point(start, goal, &solid);
    let n2 = find_nearest_accessible_point(start, goal, &solid);
    assert_eq!(n1, n2);
}

#[test]
fn returned_cost_matches_exhaustive_minimum() {
    // admissibility on a small synthetic grid: a solid wall at cell
    // column 3 spanning rows -1..=5 stands between start and goal
    let start = WorldPos { x: 0, y: 0 };
    let goal = WorldPos { x: 56, y: 0 };
    let mut solid = Vec::new();
    for cy in -1i32..=5 {
        solid.push(WorldPos { x: 24, y: cy * 8 });
    }
    let solid_cells: Vec<GridPos> = solid.iter().map(|&p| cell(p)).collect();
    let p = find_path(start, goal, &solid).expect("a penalized wall never blocks");
    let lib_cost = path_cost(&p, &solid);
    // the library's cost measure and this file's independent one agree
    assert_eq!(lib_cost, path_cost_local(&p, &solid_cells));

    // exhaustive minimum over a box that amply contains every sensible
    // route, by relaxation to a fixed point
    let (x0, x1, y0, y1) = (-3i32, 10i32, -5i32, 8i32);
    let mut dist: HashMap<(i32, i32), i64> = HashMap::new();
    let sc = cell(start);
    let gc = cell(goal);
    dist.insert((sc.x, sc.y), 0);
    loop {
        let mut changed = false;
        for cx in x0..=x1 {
            for cy in y0..=y1 {
                let Some(&d) = dist.get(&(cx, cy)) else { continue };
                for dx in -1i32..=1 {
                    for dy in -1i32..=1 {
                        if dx == 0 && dy == 0 {
                            continue;
                        }
                        let (nx, ny) = (cx + dx, cy + dy);
                        if nx < x0 || nx > x1 || ny < y0 || ny > y1 {
                            continue;
                        }
                        let c = step_cost(
                            GridPos { x: cx, y: cy },
                            GridPos { x: nx, y: ny },
                            &solid_cells,
                        );
                        let nd = d + c;
                        if dist.get(&(nx, ny)).map_or(true, |&cur| nd < cur) {
                            dist.insert((nx, ny), nd);
                            changed = true;
                        }
                    }
                }
            }
        }
        if !changed {
            break;
        }
    }
    let opt = *dist.get(&(gc.x, gc.y)).expect("goal reachable in the box");
    assert!(
        lib_cost <= opt,
        "library path cost {} exceeds exhaustive minimum {}",
        lib_cost,
        opt
    );
}

#[test]
fn nearest_point_approaches_the_target() {
    // beyond the threshold on open ground, the goal-relaxed search stops
    // once a visited cell is within two cells of the target
    let start = WorldPos { x: 0, y: 0 };
    let target = WorldPos { x: 80, y: 0 };
    let r = find_nearest_accessible_point(start, target, &Vec::new())
        .expect("a candidate always exists");
    let d2 = cell(r).dist_sq(&cell(target));
    assert!(d2 < 4, "stopped {} squared cells away", d2);
    // and it is never farther from the target than the start was
    assert!(d2 <= cell(start).dist_sq(&cell(target)));
}
