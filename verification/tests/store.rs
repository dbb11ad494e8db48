use hexworld::store::GridState;
use hexworld::store::TileType;
use hexworld::store::tile_code;
use hexworld::store::tile_from_code;

#[test]
fn tile_codes_are_fixed() {
    assert_eq!(tile_code(TileType::Grass), 0);
    assert_eq!(tile_code(TileType::Building), 1);
    assert_eq!(tile_code(TileType::Road), 2);
    assert_eq!(tile_code(TileType::Forest), 3);
    assert_eq!(tile_code(TileType::Water), 4);
}

#[test]
fn tile_from_code_round_trips() {
    for code in 0..5 {
        let t = tile_from_code(code).expect("valid code");
        assert_eq!(tile_code(t), code);
    }
}

#[test]
fn invalid_tile_codes_are_rejected() {
    assert!(tile_from_code(-1).is_none());
    assert!(tile_from_code(5).is_none());
    assert!(tile_from_code(42).is_none());
}

#[test]
fn set_constraint_rejects_invalid_code() {
    let mut state = GridState::new();
    assert!(!state.set_pre_constraint(0, 0, 9));
    assert!(state.set_pre_constraint(0, 0, 2));
}

#[test]
fn generate_layout_copies_constraints() {
    let mut state = GridState::new();
    assert!(state.set_pre_constraint(0, 0, 0));
    assert!(state.set_pre_constraint(1, 0, 2));
    assert!(state.set_pre_constraint(0, 1, 4));
    assert_eq!(state.get_tile_at(0, 0), -1);
    state.generate_layout();
    assert_eq!(state.get_tile_at(0, 0), 0);
    assert_eq!(state.get_tile_at(1, 0), 2);
    assert_eq!(state.get_tile_at(0, 1), 4);
    assert_eq!(state.get_tile_at(9, 9), -1);
}

#[test]
fn generate_layout_is_idempotent() {
    let mut state = GridState::new();
    assert!(state.set_pre_constraint(2, 2, 3));
    assert!(state.set_pre_constraint(-1, 4, 1));
    state.generate_layout();
    let coords = vec![(2, 2), (-1, 4), (0, 0)];
    let first = state.batch_get_tile_types(&coords);
    let stats_first = state.get_stats();
    state.generate_layout();
    let second = state.batch_get_tile_types(&coords);
    let stats_second = state.get_stats();
    assert_eq!(first, second);
    assert_eq!(stats_first, stats_second);
}

#[test]
fn clear_layout_keeps_constraints() {
    let mut state = GridState::new();
    assert!(state.set_pre_constraint(0, 0, 3));
    state.generate_layout();
    assert_eq!(state.get_tile_at(0, 0), 3);
    state.clear_layout();
    assert_eq!(state.get_tile_at(0, 0), -1);
    // constraints persisted: a fresh generation restores the tile
    state.generate_layout();
    assert_eq!(state.get_tile_at(0, 0), 3);
}

#[test]
fn clear_pre_constraints_empties_overlay() {
    let mut state = GridState::new();
    assert!(state.set_pre_constraint(0, 0, 3));
    state.clear_pre_constraints();
    state.generate_layout();
    assert_eq!(state.get_tile_at(0, 0), -1);
}

#[test]
fn constraints_overwrite_in_place() {
    let mut state = GridState::new();
    assert!(state.set_pre_constraint(5, 5, 0));
    assert!(state.set_pre_constraint(5, 5, 4));
    state.generate_layout();
    assert_eq!(state.get_tile_at(5, 5), 4);
    let stats = state.get_stats();
    assert_eq!(stats.total, 1);
}

#[test]
fn stats_count_each_type() {
    let mut state = GridState::new();
    assert!(state.set_pre_constraint(0, 0, 0));
    assert!(state.set_pre_constraint(1, 0, 0));
    assert!(state.set_pre_constraint(2, 0, 2));
    assert!(state.set_pre_constraint(3, 0, 3));
    assert!(state.set_pre_constraint(4, 0, 4));
    state.generate_layout();
    let stats = state.get_stats();
    assert_eq!(stats.grass, 2);
    assert_eq!(stats.building, 0);
    assert_eq!(stats.road, 1);
    assert_eq!(stats.forest, 1);
    assert_eq!(stats.water, 1);
    assert_eq!(stats.total, 5);
}

#[test]
fn batch_get_omits_empty_cells() {
    let mut state = GridState::new();
    assert!(state.set_pre_constraint(0, 0, 2));
    assert!(state.set_pre_constraint(1, 1, 3));
    state.generate_layout();
    let records = state.batch_get_tile_types(&vec![(0, 0), (7, 7), (1, 1)]);
    assert_eq!(records, vec![((0, 0), TileType::Road), ((1, 1), TileType::Forest)]);
}

#[test]
fn get_tile_distinguishes_empty_from_grass() {
    let mut state = GridState::new();
    assert!(state.set_pre_constraint(0, 0, 0));
    state.generate_layout();
    assert_eq!(state.get_tile(0, 0), Some(TileType::Grass));
    assert_eq!(state.get_tile(1, 0), None);
    assert_eq!(state.get_tile_at(0, 0), 0);
    assert_eq!(state.get_tile_at(1, 0), -1);
}
