use battleform::bot_ai::generate_bot_commands;
use battleform::config::Command;
use battleform::engine::{Building, GameState, PlayerState, ResourceNode, Unit};
use battleform::state::{BuildingType, MatchPhase, Tile, TileType, UnitStatus, UnitType};

fn unit(id: &str, slot: u8, t: UnitType, x: i32, y: i32) -> Unit {
    Unit {
        id: id.to_string(),
        player_slot: slot,
        unit_type: t,
        x,
        y,
        hp: 30,
        max_hp: 30,
        status: UnitStatus::Idle,
        path: vec![],
        target_id: None,
        cargo: 0,
    }
}

fn base(id: &str, slot: u8, x: i32, y: i32) -> Building {
    Building { id: id.to_string(), player_slot: slot, building_type: BuildingType::Base, x, y, hp: 500, max_hp: 500 }
}

fn state() -> GameState {
    GameState {
        phase: MatchPhase::Active,
        tick: 0,
        map_width: 32,
        map_height: 32,
        terrain: vec![vec![Tile { tile_type: TileType::Grass, elevation: 1 }; 32]; 32],
        units: vec![],
        buildings: vec![base("home", 0, 2, 2), base("far", 1, 29, 29), base("near", 2, 12, 2)],
        resource_nodes: vec![
            ResourceNode { id: "empty".to_string(), x: 3, y: 3, remaining: 0 },
            ResourceNode { id: "r1".to_string(), x: 6, y: 6, remaining: 500 },
            ResourceNode { id: "r2".to_string(), x: 2, y: 6, remaining: 500 },
        ],
        players: vec![
            PlayerState { slot: 0, energy: 200, base_id: "home".to_string() },
            PlayerState { slot: 1, energy: 200, base_id: "far".to_string() },
            PlayerState { slot: 2, energy: 200, base_id: "near".to_string() },
        ],
        visibility: vec![],
        command_queue: vec![],
        winner_slot: None,
        snapshot_units: vec![],
        snapshot_buildings: vec![],
    }
}

#[test]
fn early_game_spawns_workers() {
    let s = state();
    let cmds = generate_bot_commands(&s, 0);
    assert_eq!(cmds.len(), 1);
    assert!(matches!(cmds[0], Command::SpawnUnit { player_slot: 0, unit_type: UnitType::Worker }));
}

#[test]
fn spawn_order_follows_the_build_plan() {
    let mut s = state();
    s.units.push(unit("w1", 0, UnitType::Worker, 2, 3));
    s.units.push(unit("w2", 0, UnitType::Worker, 2, 3));
    s.units[0].status = UnitStatus::Harvesting;
    s.units[1].status = UnitStatus::Harvesting;
    let cmds = generate_bot_commands(&s, 0);
    assert!(matches!(cmds[0], Command::SpawnUnit { unit_type: UnitType::Scout, .. }));
    s.units.push(unit("sc", 0, UnitType::Scout, 20, 20));
    s.units[2].status = UnitStatus::Moving;
    let cmds = generate_bot_commands(&s, 0);
    assert!(matches!(cmds[0], Command::SpawnUnit { unit_type: UnitType::Soldier, .. }));
}

#[test]
fn idle_workers_harvest_the_nearest_node_with_energy() {
    let mut s = state();
    s.units.push(unit("w1", 0, UnitType::Worker, 2, 3));
    let cmds = generate_bot_commands(&s, 0);
    assert_eq!(cmds.len(), 2);
    match &cmds[1] {
        Command::Harvest { player_slot, unit_id, resource_id } => {
            assert_eq!(*player_slot, 0);
            assert_eq!(unit_id, "w1");
            assert_eq!(resource_id, "r2");
        }
        _ => panic!("expected a harvest order"),
    }
}

#[test]
fn idle_scouts_head_past_the_nearest_enemy_base() {
    let mut s = state();
    s.units.push(unit("sc", 0, UnitType::Scout, 5, 5));
    let cmds = generate_bot_commands(&s, 0);
    match &cmds[1] {
        Command::MoveUnit { unit_id, target_x, target_y, .. } => {
            assert_eq!(unit_id, "sc");
            assert_eq!((*target_x, *target_y), (15, 5));
        }
        _ => panic!("expected a move order"),
    }
    // Past the edge, the target is kept on the map.
    let mut s = state();
    s.buildings.remove(2);
    s.units.push(unit("sc", 0, UnitType::Scout, 5, 5));
    let cmds = generate_bot_commands(&s, 0);
    match &cmds[1] {
        Command::MoveUnit { target_x, target_y, .. } => assert_eq!((*target_x, *target_y), (31, 31)),
        _ => panic!("expected a move order"),
    }
}

#[test]
fn idle_soldiers_attack_close_enemies_else_the_nearest_base() {
    let mut s = state();
    s.units.push(unit("so", 0, UnitType::Soldier, 5, 5));
    s.units.push(unit("foe", 1, UnitType::Worker, 8, 8));
    let cmds = generate_bot_commands(&s, 0);
    match cmds.last().unwrap() {
        Command::AttackTarget { unit_id, target_id, .. } => {
            assert_eq!(unit_id, "so");
            assert_eq!(target_id, "foe");
        }
        _ => panic!("expected an attack order"),
    }
    s.units[1].x = 25;
    s.units[1].y = 25;
    let cmds = generate_bot_commands(&s, 0);
    match cmds.last().unwrap() {
        Command::AttackTarget { target_id, .. } => assert_eq!(target_id, "near"),
        _ => panic!("expected an attack order"),
    }
}

#[test]
fn a_bot_without_a_base_does_not_spawn_and_walks_to_the_middle() {
    let mut s = state();
    s.buildings = vec![];
    s.units.push(unit("so", 0, UnitType::Soldier, 5, 5));
    s.units.push(unit("w", 0, UnitType::Worker, 5, 6));
    let cmds = generate_bot_commands(&s, 0);
    assert_eq!(cmds.len(), 1);
    match &cmds[0] {
        Command::MoveUnit { target_x, target_y, .. } => assert_eq!((*target_x, *target_y), (16, 16)),
        _ => panic!("expected a move order"),
    }
}
