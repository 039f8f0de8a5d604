use battleform::engine::{Building, GameState, PlayerState, Unit};
use battleform::state::{
    BuildingType, MatchPhase, StateDiff, Tile, TileType, UnitMove, UnitStatus, UnitType, VisUpdate, VisibilityState,
};

fn unit(id: &str, slot: u8, x: i32, y: i32) -> Unit {
    Unit {
        id: id.to_string(),
        player_slot: slot,
        unit_type: UnitType::Worker,
        x,
        y,
        hp: 30,
        max_hp: 30,
        status: UnitStatus::Idle,
        path: vec![],
        target_id: None,
        cargo: 0,
    }
}

fn base(id: &str, slot: u8, x: i32, y: i32) -> Building {
    Building { id: id.to_string(), player_slot: slot, building_type: BuildingType::Base, x, y, hp: 500, max_hp: 500 }
}

fn state() -> GameState {
    GameState {
        phase: MatchPhase::Active,
        tick: 7,
        map_width: 8,
        map_height: 8,
        terrain: vec![vec![Tile { tile_type: TileType::Grass, elevation: 1 }; 8]; 8],
        units: vec![unit("u1", 0, 1, 1), unit("u2", 1, 2, 2), unit("u3", 0, 3, 3)],
        buildings: vec![base("b0", 0, 0, 0), base("b1", 1, 7, 7)],
        resource_nodes: vec![],
        players: vec![
            PlayerState { slot: 0, energy: 120, base_id: "b0".to_string() },
            PlayerState { slot: 1, energy: 80, base_id: "b1".to_string() },
        ],
        visibility: vec![vec![vec![VisibilityState::Unseen; 8]; 8]],
        command_queue: vec![],
        winner_slot: None,
        snapshot_units: vec![],
        snapshot_buildings: vec![],
    }
}

fn change(s: &mut GameState) {
    s.units[0].x = 2;
    s.units[0].status = UnitStatus::Moving;
    s.units[2].hp = 10;
    s.units.remove(1);
    s.units.push(unit("u4", 1, 6, 6));
    s.buildings.remove(1);
    s.buildings.push(base("b2", 1, 5, 5));
    s.players[0].energy = 70;
}

#[test]
fn diff_reports_moves_spawns_deaths_and_energy() {
    let mut s = state();
    s.snapshot_for_diff();
    change(&mut s);
    let d = s.compute_diff();
    assert_eq!(d.tick, 7);
    assert_eq!(d.units_moved.len(), 1);
    assert_eq!((d.units_moved[0].id.as_str(), d.units_moved[0].x, d.units_moved[0].y), ("u1", 2, 1));
    assert_eq!(d.units_moved[0].status, UnitStatus::Moving);
    assert_eq!(d.units_spawned.len(), 1);
    assert_eq!(d.units_spawned[0].id, "u4");
    assert_eq!(d.units_killed, vec!["u2".to_string()]);
    assert_eq!(d.buildings_built.len(), 1);
    assert_eq!(d.buildings_built[0].id, "b2");
    assert_eq!(d.buildings_built[0].energy, None);
    assert_eq!(d.buildings_destroyed, vec!["b1".to_string()]);
    assert_eq!(d.resources_changed, vec![(0, 70), (1, 80)]);
    assert!(d.combat_events.is_empty() && d.visibility_updates.is_empty() && d.msg_type.is_none());
}

#[test]
fn a_diff_brings_a_snapshot_up_to_date() {
    let mut s = state();
    s.snapshot_for_diff();
    let mut view = s.full_snapshot();
    change(&mut s);
    let d = s.compute_diff();
    view.apply(d);
    let now = s.full_snapshot();
    let ids = |v: &battleform::state::GameStateView| {
        v.units.iter().map(|u| (u.id.clone(), u.x, u.y, u.status)).collect::<Vec<_>>()
    };
    assert_eq!(ids(&view), ids(&now));
    let bids = |v: &battleform::state::GameStateView| v.buildings.iter().map(|b| b.id.clone()).collect::<Vec<_>>();
    assert_eq!(bids(&view), bids(&now));
    assert_eq!(view.buildings[0].energy, Some(70));
    assert_eq!(view.tick, 7);
}

#[test]
fn full_snapshot_shows_owner_energy_and_first_fog() {
    let s = state();
    let v = s.full_snapshot();
    assert_eq!(v.units.len(), 3);
    assert_eq!(v.buildings[0].energy, Some(120));
    assert_eq!(v.buildings[1].energy, Some(80));
    assert_eq!(v.visibility.len(), 8);
    assert_eq!(v.terrain.len(), 8);
    assert!(v.players.is_none() && v.msg_type.is_none() && v.combat_events.is_empty());
}

#[test]
fn apply_updates_units_buildings_energy_and_fog() {
    let mut v = state().full_snapshot();
    let diff = StateDiff {
        tick: 9,
        units_moved: vec![UnitMove { id: "u2".to_string(), x: 4, y: 4, status: UnitStatus::Attacking }],
        units_spawned: vec![],
        units_killed: vec!["u3".to_string()],
        buildings_built: vec![],
        buildings_destroyed: vec!["b0".to_string()],
        combat_events: vec![],
        resources_changed: vec![(1, 5)],
        visibility_updates: vec![
            VisUpdate { x: 1, y: 2, state: VisibilityState::Visible },
            VisUpdate { x: 100, y: 2, state: VisibilityState::Visible },
        ],
        msg_type: None,
    };
    v.apply(diff);
    assert_eq!(v.tick, 9);
    assert_eq!(v.units.len(), 2);
    assert_eq!((v.units[1].x, v.units[1].y, v.units[1].status), (4, 4, UnitStatus::Attacking));
    assert_eq!(v.buildings.len(), 1);
    assert_eq!(v.buildings[0].energy, Some(5));
    assert_eq!(v.visibility[2][1], VisibilityState::Visible);
    assert_eq!(v.visibility[2][2], VisibilityState::Unseen);
}

#[test]
fn a_snapshot_and_the_diff_show_the_bases_left() {
    let mut s = state();
    s.snapshot_for_diff();
    let mut view = s.full_snapshot();
    s.buildings[0].hp = 300;
    s.buildings.remove(1);
    s.players[0].energy = 95;
    s.players[1].energy = 10;
    let d = s.compute_diff();
    view.apply(d);
    let now = s.full_snapshot();
    assert_eq!(view.buildings.len(), now.buildings.len());
    for (a, b) in view.buildings.iter().zip(now.buildings.iter()) {
        assert_eq!((&a.id, a.player_slot, a.x, a.y, a.energy), (&b.id, b.player_slot, b.x, b.y, b.energy));
    }
    assert_eq!(view.buildings[0].energy, Some(95));
    // Damage to buildings is not part of a diff.
    assert_eq!(view.buildings[0].hp, 500);
}
