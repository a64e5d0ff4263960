use ant_farm::{create_central_cavity, setup_terrain, TileKind, TileStore, WorldPos};

#[test]
fn tiles_are_keyed_by_cell() {
    let mut store = TileStore::new();
    store.add_tile(WorldPos { x: 3, y: -2 }, TileKind::Dirt);
    // the position is snapped to the cell center and any position in the
    // same cell reads the same tile
    assert_eq!(store.count(), 1);
    assert!(store.is_solid(&WorldPos { x: 0, y: 0 }));
    assert!(store.is_solid(&WorldPos { x: 3, y: -2 }));
    let t = store.get_tile(&WorldPos { x: 1, y: 1 }).expect("tile exists");
    assert_eq!(t.position, WorldPos { x: 0, y: 0 });
    // re-adding at the same cell replaces, never duplicates
    store.add_tile(WorldPos { x: -1, y: 2 }, TileKind::Air);
    assert_eq!(store.count(), 1);
    assert!(!store.is_solid(&WorldPos { x: 0, y: 0 }));
}

#[test]
fn set_tile_type_reports_presence() {
    let mut store = TileStore::new();
    store.add_tile(WorldPos { x: 8, y: 8 }, TileKind::Dirt);
    assert!(store.set_tile_type(&WorldPos { x: 8, y: 8 }, TileKind::Air));
    assert!(!store.is_solid(&WorldPos { x: 8, y: 8 }));
    assert!(!store.set_tile_type(&WorldPos { x: 80, y: 80 }, TileKind::Air));
}

#[test]
fn convert_to_open_reports_prior_solidity() {
    let mut store = TileStore::new();
    store.add_tile(WorldPos { x: 0, y: 0 }, TileKind::Dirt);
    store.add_tile(WorldPos { x: 8, y: 0 }, TileKind::Air);
    assert!(store.convert_to_open(&WorldPos { x: 0, y: 0 }));
    // already open: the conversion reports false and changes nothing
    assert!(!store.convert_to_open(&WorldPos { x: 0, y: 0 }));
    assert!(!store.convert_to_open(&WorldPos { x: 8, y: 0 }));
    // absent: also false
    assert!(!store.convert_to_open(&WorldPos { x: 80, y: 80 }));
    assert_eq!(store.solid_count(), 0);
}

#[test]
fn solid_snapshot_matches_counts() {
    let mut store = TileStore::new();
    store.add_tile(WorldPos { x: 0, y: 0 }, TileKind::Dirt);
    store.add_tile(WorldPos { x: 8, y: 0 }, TileKind::Air);
    store.add_tile(WorldPos { x: 16, y: 0 }, TileKind::Dirt);
    assert_eq!(store.count(), 3);
    assert_eq!(store.solid_count(), 2);
    let snapshot = store.get_solid_tiles();
    assert_eq!(snapshot, vec![WorldPos { x: 0, y: 0 }, WorldPos { x: 16, y: 0 }]);
}

#[test]
fn generated_terrain_has_a_central_cavity() {
    let mut store = TileStore::new();
    setup_terrain(&mut store);
    // 101 x 101 cells in all
    assert_eq!(store.count(), 101 * 101);
    // the center lies in the cavity, open
    assert!(!store.is_solid(&WorldPos { x: 0, y: 0 }));
    assert!(!store.is_solid(&WorldPos { x: 40, y: 0 }));
    // just outside the 40-unit radius the ground is solid
    assert!(store.is_solid(&WorldPos { x: 48, y: 0 }));
    assert!(store.is_solid(&WorldPos { x: 32, y: 32 }));
    assert!(store.is_solid(&WorldPos { x: -400, y: -400 }));
    // solid everywhere but the cavity disk: 101*101 minus the open cells
    let open = store.count() - store.solid_count();
    let mut expected_open = 0usize;
    for cx in -50i32..=50 {
        for cy in -50i32..=50 {
            if 64 * (cx * cx + cy * cy) <= 1600 {
                expected_open += 1;
            }
        }
    }
    assert_eq!(open, expected_open);
}

#[test]
fn carving_the_cavity_touches_only_the_disk() {
    let mut store = TileStore::new();
    store.add_tile(WorldPos { x: 0, y: 0 }, TileKind::Dirt);
    store.add_tile(WorldPos { x: 40, y: 0 }, TileKind::Dirt);
    store.add_tile(WorldPos { x: 48, y: 0 }, TileKind::Dirt);
    store.add_tile(WorldPos { x: 400, y: 400 }, TileKind::Dirt);
    create_central_cavity(&mut store);
    assert!(!store.is_solid(&WorldPos { x: 0, y: 0 }));
    assert!(!store.is_solid(&WorldPos { x: 40, y: 0 }));
    assert!(store.is_solid(&WorldPos { x: 48, y: 0 }));
    assert!(store.is_solid(&WorldPos { x: 400, y: 400 }));
}
