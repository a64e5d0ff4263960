use ant_farm::cost::{dig_cost, heuristic, move_cost, step_cost};
use ant_farm::math::{isqrt, round_div};
use ant_farm::{Ant, GridPos, WorkerState};

#[test]
fn move_costs_are_ten_and_fourteen() {
    let o = GridPos { x: 0, y: 0 };
    assert_eq!(move_cost(o, GridPos { x: 1, y: 0 }), 10);
    assert_eq!(move_cost(o, GridPos { x: 0, y: -1 }), 10);
    assert_eq!(move_cost(o, GridPos { x: 1, y: 1 }), 14);
    assert_eq!(move_cost(o, GridPos { x: -1, y: 1 }), 14);
}

#[test]
fn dig_cost_scales_with_the_trip_and_caps_at_double() {
    // zero-length trip: the base surcharge alone
    assert_eq!(dig_cost(0), 10);
    // five cells: 40 world units of 50 allowed, factor 4/5: 10 + 8
    assert_eq!(dig_cost(25), 18);
    // just inside the threshold: 10 + floor(sqrt(64 * 39)) / 5 = 10 + 9
    assert_eq!(dig_cost(39), 19);
    // beyond the threshold the factor caps at one
    assert_eq!(dig_cost(40), 20);
    assert_eq!(dig_cost(10_000), 20);
}

#[test]
fn step_cost_adds_the_surcharge_only_when_digging() {
    let a = GridPos { x: 0, y: 0 };
    let b = GridPos { x: 1, y: 1 };
    assert_eq!(step_cost(a, b, false, 10_000), 14);
    assert_eq!(step_cost(a, b, true, 10_000), 34);
    let c = GridPos { x: 1, y: 0 };
    assert_eq!(step_cost(a, c, true, 10_000), 30);
}

#[test]
fn heuristic_is_ten_times_the_cell_distance_rounded_down() {
    let o = GridPos { x: 0, y: 0 };
    assert_eq!(heuristic(o, GridPos { x: 3, y: 4 }), 50);
    assert_eq!(heuristic(o, GridPos { x: 1, y: 1 }), 14);
    assert_eq!(heuristic(o, o), 0);
    assert_eq!(heuristic(o, GridPos { x: 0, y: 7 }), 70);
}

#[test]
fn integer_square_root_is_exact() {
    assert_eq!(isqrt(0), 0);
    assert_eq!(isqrt(1), 1);
    assert_eq!(isqrt(3), 1);
    assert_eq!(isqrt(4), 2);
    assert_eq!(isqrt(2500), 50);
    assert_eq!(isqrt(2499), 49);
    assert_eq!(isqrt(1_000_000_000_000), 1_000_000);
}

#[test]
fn rounded_division_rounds_to_nearest() {
    assert_eq!(round_div(10, 4), 3);
    assert_eq!(round_div(9, 4), 2);
    assert_eq!(round_div(-10, 4), -2);
    assert_eq!(round_div(8, 8), 1);
    assert_eq!(round_div(0, 5), 0);
}

#[test]
fn a_default_worker_is_idle() {
    let ant = Ant::default();
    assert_eq!(ant.target_position, None);
    assert!(ant.current_path.is_none());
    assert_eq!(ant.current_path_index, 0);
    assert_eq!(ant.worker_state, WorkerState::Routing);
}
