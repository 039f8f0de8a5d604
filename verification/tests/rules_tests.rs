use battleform::combat::resolve_combat;
use battleform::commands::{execute_commands, resolve_movement, spawn_unit_with_id};
use battleform::config::Command;
use battleform::engine::{Building, GameState, PlayerState, ResourceNode, Unit};
use battleform::harvesting::resolve_harvesting;
use battleform::hex::Position;
use battleform::pathfinding::find_path;
use battleform::state::{BuildingType, MatchPhase, Tile, TileType, UnitStatus, UnitType};

fn base(id: &str, slot: u8, x: i32, y: i32) -> Building {
    Building { id: id.to_string(), player_slot: slot, building_type: BuildingType::Base, x, y, hp: 500, max_hp: 500 }
}

fn unit(id: &str, slot: u8, t: UnitType, x: i32, y: i32) -> Unit {
    let hp = battleform::state::unit_stats(t).hp;
    Unit {
        id: id.to_string(),
        player_slot: slot,
        unit_type: t,
        x,
        y,
        hp,
        max_hp: hp,
        status: UnitStatus::Idle,
        path: vec![],
        target_id: None,
        cargo: 0,
    }
}

fn arena() -> GameState {
    GameState {
        phase: MatchPhase::Active,
        tick: 0,
        map_width: 12,
        map_height: 12,
        terrain: vec![vec![Tile { tile_type: TileType::Grass, elevation: 1 }; 12]; 12],
        units: vec![],
        buildings: vec![base("b0", 0, 1, 1), base("b1", 1, 10, 10)],
        resource_nodes: vec![ResourceNode { id: "r0".to_string(), x: 4, y: 1, remaining: 30 }],
        players: vec![
            PlayerState { slot: 0, energy: 200, base_id: "b0".to_string() },
            PlayerState { slot: 1, energy: 50, base_id: "b1".to_string() },
        ],
        visibility: vec![],
        command_queue: vec![],
        winner_slot: None,
        snapshot_units: vec![],
        snapshot_buildings: vec![],
    }
}

#[test]
fn spawn_with_enough_energy() {
    let mut s = arena();
    spawn_unit_with_id(&mut s, 0, UnitType::Soldier, "s1".to_string());
    assert_eq!(s.players[0].energy, 100);
    assert_eq!(s.units.len(), 1);
    let u = &s.units[0];
    assert_eq!((u.id.as_str(), u.x, u.y, u.hp, u.status), ("s1", 1, 1, 80, UnitStatus::Idle));
}

#[test]
fn spawn_with_insufficient_energy() {
    let mut s = arena();
    spawn_unit_with_id(&mut s, 1, UnitType::Soldier, "s1".to_string());
    assert_eq!(s.players[1].energy, 50);
    assert!(s.units.is_empty());
}

#[test]
fn spawn_without_a_base_does_nothing() {
    let mut s = arena();
    s.buildings.remove(0);
    spawn_unit_with_id(&mut s, 0, UnitType::Worker, "w".to_string());
    assert_eq!(s.players[0].energy, 200);
    assert!(s.units.is_empty());
}

#[test]
fn commands_run_in_order_and_ignore_other_players_units() {
    let mut s = arena();
    s.units.push(unit("w0", 0, UnitType::Worker, 2, 2));
    execute_commands(
        &mut s,
        vec![
            Command::MoveUnit { player_slot: 1, unit_id: "w0".to_string(), target_x: 5, target_y: 5 },
            Command::MoveUnit { player_slot: 0, unit_id: "w0".to_string(), target_x: 5, target_y: 5 },
        ],
    );
    let u = &s.units[0];
    assert_eq!(u.status, UnitStatus::Moving);
    assert_eq!(*u.path.last().unwrap(), Position::new(5, 5));
}

#[test]
fn move_to_blocked_destination_does_nothing() {
    let mut s = arena();
    s.terrain[5][5] = Tile { tile_type: TileType::Mountain, elevation: 3 };
    s.units.push(unit("w0", 0, UnitType::Worker, 2, 2));
    execute_commands(&mut s, vec![Command::MoveUnit { player_slot: 0, unit_id: "w0".to_string(), target_x: 5, target_y: 5 }]);
    assert_eq!(s.units[0].status, UnitStatus::Idle);
    assert!(s.units[0].path.is_empty());
}

#[test]
fn movement_advances_up_to_speed_then_idles() {
    let mut s = arena();
    s.units.push(unit("w0", 0, UnitType::Worker, 2, 2));
    execute_commands(&mut s, vec![Command::MoveUnit { player_slot: 0, unit_id: "w0".to_string(), target_x: 5, target_y: 2 }]);
    assert_eq!(s.units[0].path.len(), 3);
    resolve_movement(&mut s);
    assert_eq!((s.units[0].x, s.units[0].y), (4, 2));
    assert_eq!(s.units[0].status, UnitStatus::Moving);
    resolve_movement(&mut s);
    assert_eq!((s.units[0].x, s.units[0].y), (5, 2));
    assert_eq!(s.units[0].status, UnitStatus::Idle);
}

#[test]
fn simultaneous_damage_and_death() {
    let mut s = arena();
    let mut a = unit("a", 0, UnitType::Soldier, 5, 5);
    let mut b = unit("b", 1, UnitType::Worker, 6, 5);
    a.status = UnitStatus::Attacking;
    a.target_id = Some("b".to_string());
    b.status = UnitStatus::Attacking;
    b.target_id = Some("a".to_string());
    b.hp = 20;
    s.units = vec![a, b];
    let events = resolve_combat(&mut s);
    // Both strike; the worker dies, the soldier takes its damage.
    assert_eq!(events.len(), 2);
    assert_eq!(events[0].attacker_id, "a");
    assert_eq!(events[0].damage, 20);
    assert_eq!((events[0].x, events[0].y), (6, 5));
    assert_eq!(events[1].attacker_id, "b");
    assert_eq!(events[1].damage, 5);
    assert_eq!(s.units.len(), 1);
    assert_eq!(s.units[0].id, "a");
    assert_eq!(s.units[0].hp, 75);
}

#[test]
fn attackers_chase_and_give_up() {
    let mut s = arena();
    let mut a = unit("a", 0, UnitType::Soldier, 2, 5);
    a.status = UnitStatus::Attacking;
    a.target_id = Some("e".to_string());
    let mut c = unit("c", 0, UnitType::Soldier, 3, 8);
    c.status = UnitStatus::Attacking;
    c.target_id = Some("nobody".to_string());
    let e = unit("e", 1, UnitType::Worker, 8, 5);
    s.units = vec![a, c, e];
    let events = resolve_combat(&mut s);
    assert!(events.is_empty());
    // Out of range: it walks toward its target.
    assert_eq!(s.units[0].status, UnitStatus::Moving);
    assert_eq!(*s.units[0].path.last().unwrap(), Position::new(8, 5));
    // Target gone: it gives up.
    assert_eq!(s.units[1].status, UnitStatus::Idle);
    assert_eq!(s.units[1].target_id, None);
}

#[test]
fn buildings_take_damage_and_fall() {
    let mut s = arena();
    s.buildings[1].hp = 20;
    let mut a = unit("a", 0, UnitType::Soldier, 9, 10);
    a.status = UnitStatus::Attacking;
    a.target_id = Some("b1".to_string());
    s.units = vec![a];
    let events = resolve_combat(&mut s);
    assert_eq!(events.len(), 1);
    assert_eq!(events[0].target_id, "b1");
    assert_eq!(s.buildings.len(), 1);
    assert_eq!(s.buildings[0].id, "b0");
}

#[test]
fn harvest_and_deposit() {
    let mut s = arena();
    let mut w = unit("w", 0, UnitType::Worker, 3, 1);
    w.status = UnitStatus::Harvesting;
    w.target_id = Some("r0".to_string());
    s.units = vec![w];
    resolve_harvesting(&mut s);
    assert_eq!(s.resource_nodes[0].remaining, 5);
    assert_eq!(s.units[0].cargo, 25);
    assert_eq!(s.units[0].status, UnitStatus::Returning);
    // The base itself blocks its cell, so no walk home is found.
    assert!(s.units[0].path.is_empty());

    // Home next to its base: the cargo goes into the pool.
    s.units[0].x = 2;
    s.units[0].y = 1;
    resolve_harvesting(&mut s);
    assert_eq!(s.players[0].energy, 225);
    assert_eq!(s.units[0].cargo, 0);
    assert_eq!(s.units[0].status, UnitStatus::Idle);
    assert_eq!(s.units[0].target_id, None);
}

#[test]
fn harvest_takes_what_is_left() {
    let mut s = arena();
    s.resource_nodes[0].remaining = 10;
    let mut w = unit("w", 0, UnitType::Worker, 3, 1);
    w.status = UnitStatus::Harvesting;
    w.target_id = Some("r0".to_string());
    s.units = vec![w];
    resolve_harvesting(&mut s);
    assert_eq!(s.resource_nodes[0].remaining, 0);
    assert_eq!(s.units[0].cargo, 10);
}

fn held_carried_and_left(s: &GameState) -> i64 {
    s.players.iter().map(|p| p.energy as i64).sum::<i64>()
        + s.units.iter().map(|u| u.cargo as i64).sum::<i64>()
        + s.resource_nodes.iter().map(|r| r.remaining as i64).sum::<i64>()
}

#[test]
fn harvesting_makes_and_loses_no_energy() {
    let mut s = arena();
    let mut w = unit("w", 0, UnitType::Worker, 3, 1);
    w.status = UnitStatus::Harvesting;
    w.target_id = Some("r0".to_string());
    let mut v = unit("v", 0, UnitType::Worker, 2, 1);
    v.status = UnitStatus::Returning;
    v.cargo = 25;
    s.units = vec![w, v];
    let before = held_carried_and_left(&s);
    for _ in 0..3 {
        resolve_harvesting(&mut s);
        assert_eq!(held_carried_and_left(&s), before);
    }
    assert_eq!(s.players[0].energy, 225);
}

#[test]
fn a_diff_right_after_the_snapshot_is_empty() {
    let mut s = arena();
    s.units = vec![unit("a", 0, UnitType::Worker, 3, 3), unit("b", 1, UnitType::Soldier, 8, 8)];
    s.snapshot_for_diff();
    let d = s.compute_diff();
    assert!(d.units_moved.is_empty() && d.units_spawned.is_empty() && d.units_killed.is_empty());
    assert!(d.buildings_built.is_empty() && d.buildings_destroyed.is_empty());
    assert_eq!(d.resources_changed, vec![(0, 200), (1, 50)]);
}

#[test]
fn a_move_order_follows_the_route_the_pathfinder_gives() {
    let mut s = arena();
    s.terrain[4][4] = Tile { tile_type: TileType::Snow, elevation: 2 };
    s.terrain[3][5] = Tile { tile_type: TileType::Forest, elevation: 1 };
    s.units.push(unit("w0", 0, UnitType::Worker, 2, 2));
    let route = find_path(&s, Position::new(2, 2), Position::new(7, 6));
    assert_eq!(route, find_path(&s, Position::new(2, 2), Position::new(7, 6)));
    execute_commands(&mut s, vec![Command::MoveUnit { player_slot: 0, unit_id: "w0".to_string(), target_x: 7, target_y: 6 }]);
    assert_eq!(s.units[0].path, route);
    assert_eq!(s.units[0].status, UnitStatus::Moving);
}
