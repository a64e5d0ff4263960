use ant_farm::{Ant, Directive, GridPos, TileKind, TileStore, WorkerState, WorldPos};

fn dirt_row(store: &mut TileStore, cx0: i32, cx1: i32, cy: i32) {
    for cx in cx0..=cx1 {
        store.add_tile(WorldPos { x: cx * 8, y: cy * 8 }, TileKind::Dirt);
    }
}

#[test]
fn idle_worker_is_a_fixed_point() {
    let mut ant = Ant::new();
    let mut store = TileStore::new();
    let home = WorldPos { x: 0, y: 0 };
    let out = ant.tick(WorldPos { x: 10, y: 10 }, home, &mut store);
    assert_eq!(out.directive, Directive::Stop);
    assert_eq!(out.dug, None);
    assert_eq!(ant.target_position, None);
    assert!(ant.current_path.is_none());
    assert_eq!(ant.current_path_index, 0);
    assert_eq!(ant.worker_state, WorkerState::Routing);
}

#[test]
fn arrival_clears_everything_and_stays_idle() {
    let mut ant = Ant::new();
    ant.assign_target(WorldPos { x: 2, y: 0 });
    let mut store = TileStore::new();
    let home = WorldPos { x: 0, y: 0 };
    let current = WorldPos { x: 0, y: 0 };
    // distance 2 < completion threshold 5: the worker arrives
    let out = ant.tick(current, home, &mut store);
    assert_eq!(out.directive, Directive::Stop);
    assert_eq!(ant.target_position, None);
    assert!(ant.current_path.is_none());
    assert_eq!(ant.current_path_index, 0);
    assert_eq!(ant.worker_state, WorkerState::Routing);
    // a further tick with no new target changes nothing
    let out2 = ant.tick(current, home, &mut store);
    assert_eq!(out2.directive, Directive::Stop);
    assert_eq!(out2.dug, None);
    assert_eq!(ant.target_position, None);
    assert!(ant.current_path.is_none());
    assert_eq!(ant.current_path_index, 0);
    assert_eq!(ant.worker_state, WorkerState::Routing);
}

#[test]
fn home_range_guard_overrides_the_target() {
    let home = WorldPos { x: 0, y: 0 };
    let target = WorldPos { x: 900, y: 0 };
    let mut ant = Ant {
        target_position: Some(target),
        current_path: Some(vec![WorldPos { x: 608, y: 0 }, WorldPos { x: 616, y: 0 }]),
        current_path_index: 1,
        worker_state: WorkerState::Routing,
    };
    let mut store = TileStore::new();
    // the worker stands 600 units from home, past the 500-unit maximum
    let out = ant.tick(WorldPos { x: 600, y: 0 }, home, &mut store);
    assert_eq!(out.directive, Directive::Keep);
    assert_eq!(out.dug, None);
    // the effective target is the anchor on the very next tick
    assert_eq!(ant.target_position, Some(home));
    // mid-path state is kept; only the target is overridden
    assert_eq!(ant.current_path_index, 1);
    assert!(ant.current_path.is_some());
    assert_eq!(ant.worker_state, WorkerState::Routing);
}

#[test]
fn digging_converts_at_most_one_tile_per_tick() {
    let home = WorldPos { x: 0, y: 0 };
    let target = WorldPos { x: 80, y: 0 };
    let mut store = TileStore::new();
    dirt_row(&mut store, 1, 9, 0);
    let before = store.solid_count();
    let mut ant = Ant {
        target_position: Some(target),
        current_path: None,
        current_path_index: 0,
        worker_state: WorkerState::Digging(target),
    };
    let current = WorldPos { x: 0, y: 0 };
    let out = ant.tick(current, home, &mut store);
    // one tile-width step toward the target lands on cell (1, 0)
    assert_eq!(out.dug, Some(WorldPos { x: 8, y: 0 }));
    assert_eq!(out.directive, Directive::DigWalk(target));
    assert_eq!(store.solid_count(), before - 1);
    assert!(!store.is_solid(&WorldPos { x: 8, y: 0 }));
    assert_eq!(ant.worker_state, WorkerState::Digging(target));

    // the agent has not moved; the next cell is now open, so the worker
    // walks at full speed and converts nothing
    let out2 = ant.tick(current, home, &mut store);
    assert_eq!(out2.dug, None);
    assert_eq!(out2.directive, Directive::Walk(target));
    assert_eq!(store.solid_count(), before - 1);
    // a converted tile never turns back to solid
    assert!(!store.is_solid(&WorldPos { x: 8, y: 0 }));
}

#[test]
fn workers_share_the_terrain_in_processing_order() {
    // two workers aimed at the same tile, processed sequentially within a
    // tick: the first converts it, the second finds it already open
    let home = WorldPos { x: 0, y: 0 };
    let target = WorldPos { x: 80, y: 0 };
    let mut store = TileStore::new();
    dirt_row(&mut store, 1, 9, 0);
    let mk = || Ant {
        target_position: Some(target),
        current_path: None,
        current_path_index: 0,
        worker_state: WorkerState::Digging(target),
    };
    let mut first = mk();
    let mut second = mk();
    let current = WorldPos { x: 0, y: 0 };
    let out1 = first.tick(current, home, &mut store);
    assert_eq!(out1.dug, Some(WorldPos { x: 8, y: 0 }));
    let out2 = second.tick(current, home, &mut store);
    assert_eq!(out2.dug, None);
    assert_eq!(out2.directive, Directive::Walk(target));
}

#[test]
fn dig_completion_returns_to_routing_and_advances_the_cursor() {
    let home = WorldPos { x: 0, y: 0 };
    let dig_target = WorldPos { x: 20, y: 0 };
    let mut store = TileStore::new();
    store.add_tile(WorldPos { x: 0, y: 0 }, TileKind::Air);
    let mut ant = Ant {
        target_position: Some(WorldPos { x: 200, y: 0 }),
        current_path: Some(vec![WorldPos { x: 0, y: 0 }, dig_target, WorldPos { x: 40, y: 0 }]),
        current_path_index: 1,
        worker_state: WorkerState::Digging(dig_target),
    };
    // within one tile width of the dig target: digging is complete
    let out = ant.tick(WorldPos { x: 16, y: 0 }, home, &mut store);
    assert_eq!(out.directive, Directive::Stop);
    assert_eq!(out.dug, None);
    assert_eq!(ant.worker_state, WorkerState::Routing);
    assert_eq!(ant.current_path_index, 2);
}

#[test]
fn dig_request_on_a_missing_tile_abandons_the_target() {
    let home = WorldPos { x: 0, y: 0 };
    let target = WorldPos { x: 80, y: 0 };
    let mut store = TileStore::new();
    let mut ant = Ant {
        target_position: Some(target),
        current_path: None,
        current_path_index: 0,
        worker_state: WorkerState::Digging(target),
    };
    let out = ant.tick(WorldPos { x: 0, y: 0 }, home, &mut store);
    assert_eq!(out.directive, Directive::Stop);
    assert_eq!(out.dug, None);
    assert_eq!(ant.target_position, None);
    assert!(ant.current_path.is_none());
    assert_eq!(ant.current_path_index, 0);
    assert_eq!(ant.worker_state, WorkerState::Routing);
}

#[test]
fn assigning_a_target_cancels_path_and_mode() {
    let mut ant = Ant {
        target_position: Some(WorldPos { x: 100, y: 100 }),
        current_path: Some(vec![WorldPos { x: 8, y: 0 }]),
        current_path_index: 1,
        worker_state: WorkerState::Digging(WorldPos { x: 8, y: 0 }),
    };
    let t = WorldPos { x: -64, y: 32 };
    ant.assign_target(t);
    assert_eq!(ant.target_position, Some(t));
    assert!(ant.current_path.is_none());
    assert_eq!(ant.current_path_index, 0);
    assert_eq!(ant.worker_state, WorkerState::Routing);
}

#[test]
fn routing_defers_to_digging_at_a_blocked_waypoint() {
    let home = WorldPos { x: 0, y: 0 };
    let w = WorldPos { x: 16, y: 0 };
    let mut store = TileStore::new();
    // a solid tile adjacent to the waypoint's cell (one-cell Chebyshev radius)
    store.add_tile(WorldPos { x: 24, y: 8 }, TileKind::Dirt);
    let mut ant = Ant {
        target_position: Some(WorldPos { x: 200, y: 0 }),
        current_path: Some(vec![WorldPos { x: 0, y: 0 }, w]),
        current_path_index: 1,
        worker_state: WorkerState::Routing,
    };
    let out = ant.tick(WorldPos { x: 8, y: 0 }, home, &mut store);
    assert_eq!(out.directive, Directive::Stop);
    assert_eq!(ant.worker_state, WorkerState::Digging(w));
    assert_eq!(ant.current_path_index, 1);
}

#[test]
fn clear_waypoints_are_walked_to_and_advanced_past() {
    let home = WorldPos { x: 0, y: 0 };
    let w1 = WorldPos { x: 16, y: 0 };
    let w2 = WorldPos { x: 24, y: 0 };
    let mut store = TileStore::new();
    let mut ant = Ant {
        target_position: Some(WorldPos { x: 200, y: 0 }),
        current_path: Some(vec![WorldPos { x: 0, y: 0 }, w1, w2]),
        current_path_index: 1,
        worker_state: WorkerState::Routing,
    };
    // far from the waypoint: steer toward it
    let out = ant.tick(WorldPos { x: 4, y: 0 }, home, &mut store);
    assert_eq!(out.directive, Directive::Walk(w1));
    assert_eq!(ant.current_path_index, 1);
    // within the waypoint threshold (under two units): advance the cursor
    let out2 = ant.tick(WorldPos { x: 15, y: 0 }, home, &mut store);
    assert_eq!(out2.directive, Directive::Keep);
    assert_eq!(ant.current_path_index, 2);
}

#[test]
fn guard_boundary_is_strict() {
    // exactly 500 units from home: the guard does not trip
    let home = WorldPos { x: 0, y: 0 };
    let target = WorldPos { x: 456, y: 0 };
    let mut store = TileStore::new();
    let mut ant = Ant::new();
    ant.assign_target(target);
    let current = WorldPos { x: 500, y: 0 };
    let out = ant.tick(current, home, &mut store);
    assert_eq!(ant.target_position, Some(target));
    // the 44-unit hop is within the direct-dig threshold: the cached path
    // is exactly [current, target]
    assert_eq!(ant.current_path.as_deref(), Some(&[current, target][..]));
    assert!(out.dug.is_none());
}

#[test]
fn completion_boundary_is_strict() {
    // exactly 5 units from the target: not yet arrived
    let home = WorldPos { x: 0, y: 0 };
    let target = WorldPos { x: 5, y: 0 };
    let mut store = TileStore::new();
    let mut ant = Ant::new();
    ant.assign_target(target);
    let out = ant.tick(WorldPos { x: 0, y: 0 }, home, &mut store);
    assert_eq!(ant.target_position, Some(target));
    assert!(ant.current_path.is_some());
    assert_eq!(out.dug, None);
    // one unit closer, the worker arrives and clears its state
    let out2 = ant.tick(WorldPos { x: 1, y: 0 }, home, &mut store);
    assert_eq!(out2.directive, Directive::Stop);
    assert_eq!(ant.target_position, None);
    assert!(ant.current_path.is_none());
}

#[test]
fn routing_without_a_path_computes_one_and_follows_it() {
    let home = WorldPos { x: 0, y: 0 };
    let target = WorldPos { x: 80, y: 0 };
    let mut store = TileStore::new();
    let mut ant = Ant::new();
    ant.assign_target(target);
    let current = WorldPos { x: 0, y: 0 };
    let out = ant.tick(current, home, &mut store);
    assert_eq!(out.dug, None);
    assert!(ant.current_path.is_some());
    assert_eq!(ant.target_position, Some(target));
    assert_eq!(ant.worker_state, WorkerState::Routing);
    // the path starts at the worker's own position, which counts as an
    // already-reached waypoint: the cursor has advanced past it
    assert_eq!(ant.current_path_index, 1);
    assert_eq!(out.directive, Directive::Keep);
    let p = ant.current_path.as_ref().unwrap();
    assert_eq!(p[0], current);
}
