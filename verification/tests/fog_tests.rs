use battleform::engine::{Building, GameState, PlayerState, Unit};
use battleform::fog::compute_fog;
use battleform::hex::{hex_distance, Position};
use battleform::state::{BuildingType, MatchPhase, Tile, TileType, UnitStatus, UnitType, VisibilityState};

fn scout_state() -> GameState {
    GameState {
        phase: MatchPhase::Active,
        tick: 0,
        map_width: 10,
        map_height: 10,
        terrain: vec![vec![Tile { tile_type: TileType::Grass, elevation: 1 }; 10]; 10],
        units: vec![Unit {
            id: "u1".to_string(),
            player_slot: 0,
            unit_type: UnitType::Scout,
            x: 5,
            y: 5,
            hp: 40,
            max_hp: 40,
            status: UnitStatus::Idle,
            path: vec![],
            target_id: None,
            cargo: 0,
        }],
        buildings: vec![],
        resource_nodes: vec![],
        players: vec![PlayerState { slot: 0, energy: 200, base_id: String::new() }],
        visibility: vec![],
        command_queue: vec![],
        winner_slot: None,
        snapshot_units: vec![],
        snapshot_buildings: vec![],
    }
}

#[test]
fn test_fog_marks_visible_around_unit() {
    let mut state = scout_state();

    compute_fog(&mut state);

    // Scout has vision 6 — center should be visible
    assert_eq!(state.visibility[0][5][5], VisibilityState::Visible);
    // Far corner should still be unseen
    assert_eq!(state.visibility[0][0][0], VisibilityState::Unseen);
}

#[test]
fn fog_visible_exactly_within_vision() {
    let mut state = scout_state();
    compute_fog(&mut state);
    let center = Position::new(5, 5);
    for y in 0..10 {
        for x in 0..10 {
            let d = hex_distance(center, Position::new(x, y));
            let v = state.visibility[0][y as usize][x as usize];
            if d <= 6 {
                assert_eq!(v, VisibilityState::Visible);
            } else {
                assert_eq!(v, VisibilityState::Unseen);
            }
        }
    }
}

#[test]
fn fog_downgrades_what_is_no_longer_seen() {
    let mut state = scout_state();
    compute_fog(&mut state);
    assert_eq!(state.visibility[0][1][2], VisibilityState::Visible);
    state.units[0].unit_type = UnitType::Worker;
    state.units[0].x = 8;
    state.units[0].y = 8;
    compute_fog(&mut state);
    // Out of a worker's vision of 3 now, but seen before.
    assert_eq!(state.visibility[0][1][2], VisibilityState::PreviouslySeen);
    assert_eq!(state.visibility[0][8][8], VisibilityState::Visible);
    assert_eq!(state.visibility[0][0][0], VisibilityState::Unseen);
}

#[test]
fn fog_is_per_player_and_buildings_see() {
    let mut state = scout_state();
    state.players.push(PlayerState { slot: 3, energy: 0, base_id: "b3".to_string() });
    state.buildings.push(Building {
        id: "b3".to_string(),
        player_slot: 3,
        building_type: BuildingType::Base,
        x: 0,
        y: 9,
        hp: 500,
        max_hp: 500,
    });
    compute_fog(&mut state);
    assert_eq!(state.visibility.len(), 2);
    // Player 3 sees around its base only (base vision 4).
    assert_eq!(state.visibility[1][9][0], VisibilityState::Visible);
    assert_eq!(state.visibility[1][9][4], VisibilityState::Visible);
    assert_eq!(state.visibility[1][9][5], VisibilityState::Unseen);
    assert_eq!(state.visibility[1][5][5], VisibilityState::Unseen);
    // Player 0 does not see through the other player's base.
    assert_eq!(state.visibility[0][9][0], VisibilityState::Unseen);
}
