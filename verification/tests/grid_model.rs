use ant_farm::{GridPos, WorldPos};

#[test]
fn cell_from_world_rounds_to_nearest() {
    let c = GridPos::from_world(WorldPos { x: 13, y: -9 });
    assert_eq!(c, GridPos { x: 2, y: -1 });
    let c2 = GridPos::from_world(WorldPos { x: 0, y: 0 });
    assert_eq!(c2, GridPos { x: 0, y: 0 });
    let c3 = GridPos::from_world(WorldPos { x: -12, y: 20 });
    assert_eq!(c3, GridPos { x: -1, y: 3 });
}

#[test]
fn snap_to_center_is_idempotent() {
    let p = WorldPos { x: 13, y: -9 };
    let c = GridPos::from_world(p);
    let center = c.to_world();
    assert_eq!(center, WorldPos { x: 16, y: -8 });
    // a position already on a cell center maps back to the same cell
    assert_eq!(GridPos::from_world(center), c);
    assert_eq!(GridPos::from_world(center).to_world(), center);
}

#[test]
fn positions_near_a_center_share_its_cell() {
    let center = WorldPos { x: 16, y: -8 };
    let c = GridPos::from_world(center);
    for dx in -3i32..=3 {
        for dy in -3i32..=3 {
            let p = WorldPos { x: center.x + dx, y: center.y + dy };
            assert_eq!(GridPos::from_world(p), c);
        }
    }
}

#[test]
fn squared_distances_are_exact() {
    let a = WorldPos { x: 0, y: 0 };
    let b = WorldPos { x: 3, y: 4 };
    assert_eq!(a.dist_sq(&b), 25);
    let ca = GridPos { x: -1, y: 2 };
    let cb = GridPos { x: 2, y: -2 };
    assert_eq!(ca.dist_sq(&cb), 9 + 16);
}
