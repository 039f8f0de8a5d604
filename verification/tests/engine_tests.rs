use battleform::config::{Command, MapPreset, MatchConfig, PlayerConfig, PlayerKind};
use battleform::game::GameEngine;
use battleform::hex::Position;
use battleform::maps::{get_start_positions, MAP_SIZE};
use battleform::state::{MatchPhase, Tile, TileType, UnitStatus, UnitType, STARTING_ENERGY};

fn pseudo_noise(x: f64, y: f64) -> f64 {
    let v = (x * 127.1 + y * 311.7).sin() * 43758.5453;
    v - v.floor()
}

/// The terrain a generated map of `player_count` players is played on.
fn generated_terrain(player_count: usize) -> Vec<Vec<Tile>> {
    let width = MAP_SIZE;
    let height = MAP_SIZE;
    let start_positions = get_start_positions(player_count, width, height);
    let cx = width as f64 / 2.0;
    let cy = height as f64 / 2.0;
    let max_dist = (cx * cx + cy * cy).sqrt();
    (0..height)
        .map(|y| {
            (0..width)
                .map(|x| {
                    let fx = x as f64;
                    let fy = y as f64;
                    let dist_from_center = ((fx - cx).powi(2) + (fy - cy).powi(2)).sqrt() / max_dist;
                    let dist_from_edge = (x.min(y).min(width - 1 - x).min(height - 1 - y)) as f64;
                    let n = pseudo_noise(fx, fy);
                    let n2 = pseudo_noise(fx + 100.0, fy + 100.0);
                    let near_start = start_positions
                        .iter()
                        .any(|sp| ((sp.x - x as i32).abs() + (sp.y - y as i32).abs()) <= 4);
                    if near_start {
                        Tile { tile_type: TileType::Grass, elevation: 1 }
                    } else if dist_from_edge <= 1.0 {
                        Tile { tile_type: TileType::WaterSea, elevation: 0 }
                    } else if dist_from_edge <= 3.0 && n < 0.4 {
                        Tile { tile_type: TileType::WaterLake, elevation: 0 }
                    } else if dist_from_center < 0.2 && n < 0.3 {
                        Tile { tile_type: TileType::Mountain, elevation: 3 }
                    } else if dist_from_center < 0.35 && n < 0.25 {
                        Tile { tile_type: TileType::Forest, elevation: 2 }
                    } else if n2 < 0.12 {
                        Tile { tile_type: TileType::Desert, elevation: 1 }
                    } else if n2 < 0.18 {
                        Tile { tile_type: TileType::Snow, elevation: 2 }
                    } else if n < 0.2 {
                        Tile { tile_type: TileType::Forest, elevation: 1 }
                    } else {
                        Tile { tile_type: TileType::Grass, elevation: 1 }
                    }
                })
                .collect()
        })
        .collect()
}

/// The lower-case hyphenated text of a version 4 UUID.
fn uuid_like(s: &str) -> bool {
    let b = s.as_bytes();
    b.len() == 36
        && b.iter().enumerate().all(|(i, c)| {
            if i == 8 || i == 13 || i == 18 || i == 23 {
                *c == b'-'
            } else {
                c.is_ascii_digit() || (b'a'..=b'f').contains(c)
            }
        })
        && b[14] == b'4'
        && matches!(b[19], b'8' | b'9' | b'a' | b'b')
}

fn duel(kind: PlayerKind, names: [&str; 2]) -> MatchConfig {
    MatchConfig {
        map_preset: MapPreset::Duel,
        players: vec![
            PlayerConfig { slot: 0, kind, name: names[0].into() },
            PlayerConfig { slot: 1, kind, name: names[1].into() },
        ],
        max_ticks: 2000,
        tick_rate_ms: 100,
    }
}

#[test]
fn test_full_match_bot_vs_bot() {
    let config = duel(PlayerKind::Bot, ["Bot A", "Bot B"]);

    let mut engine = GameEngine::new(config, generated_terrain(2));

    // Both bases should exist
    assert_eq!(engine.state.buildings.len(), 2);
    assert_eq!(engine.state.players.len(), 2);
    assert_eq!(engine.state.players[0].energy, STARTING_ENERGY);

    // Run match to completion (the match is scored at max_ticks = 2000)
    let mut tick_count = 0;
    while !engine.is_finished() && tick_count < 3500 {
        engine.tick();
        tick_count += 1;
    }

    assert!(engine.is_finished(), "Match should complete within max ticks (ran {} ticks)", tick_count);
    assert!(tick_count > 0, "At least one tick should have run");

    // Snapshot should be valid
    let snapshot = engine.full_snapshot();
    assert_eq!(snapshot.map_width, 32);
    assert_eq!(snapshot.map_height, 32);
}

#[test]
fn test_engine_spawn_and_move() {
    let config = duel(PlayerKind::Human, ["P1", "P2"]);

    let mut engine = GameEngine::new(config, generated_terrain(2));

    // Spawn a worker for player 0
    engine.queue_command(Command::SpawnUnit { player_slot: 0, unit_type: UnitType::Worker });

    let result = engine.tick();
    assert_eq!(result.diff.units_spawned.len(), 1);
    assert_eq!(engine.state.units.len(), 1);
    assert_eq!(engine.state.units[0].unit_type, UnitType::Worker);

    // Player energy should have decreased
    let p0_energy = engine.state.players[0].energy;
    assert_eq!(p0_energy, STARTING_ENERGY - 50);
}

#[test]
fn new_match_lays_out_bases_players_and_fog() {
    let config = duel(PlayerKind::Bot, ["A", "B"]);
    let engine = GameEngine::new(config, generated_terrain(2));
    assert_eq!(engine.state.phase, MatchPhase::Active);
    assert_eq!(engine.autopilot_slots, vec![0, 1]);
    assert_eq!((engine.state.buildings[0].x, engine.state.buildings[0].y), (2, 2));
    assert_eq!((engine.state.buildings[1].x, engine.state.buildings[1].y), (29, 29));
    assert_eq!(engine.state.players[1].base_id, engine.state.buildings[1].id);
    assert!(uuid_like(&engine.state.buildings[0].id));
    assert!(engine.state.resource_nodes.iter().all(|r| uuid_like(&r.id)));
    assert_eq!(engine.state.resource_nodes.len(), 6);
    assert!(engine.state.resource_nodes.iter().all(|r| r.remaining == 500));
    assert_eq!(engine.state.visibility.len(), 2);
    // Each base sees its own cell.
    assert_eq!(engine.state.visibility[0][2][2], battleform::state::VisibilityState::Visible);
    assert_eq!(engine.state.visibility[1][2][2], battleform::state::VisibilityState::Unseen);
}

#[test]
fn commands_are_ignored_once_the_match_is_over() {
    let mut engine = GameEngine::new(duel(PlayerKind::Human, ["P1", "P2"]), generated_terrain(2));
    engine.state.phase = MatchPhase::Finished;
    engine.queue_command(Command::SpawnUnit { player_slot: 0, unit_type: UnitType::Worker });
    assert!(engine.state.command_queue.is_empty());
}

#[test]
fn a_finished_engine_reports_nothing() {
    let mut engine = GameEngine::new(duel(PlayerKind::Human, ["P1", "P2"]), generated_terrain(2));
    engine.finished = true;
    let r = engine.tick();
    assert_eq!(r.diff.tick, 0);
    assert!(r.diff.units_spawned.is_empty() && r.combat_events.is_empty());
    assert_eq!(engine.state.tick, 0);
}

#[test]
fn last_base_standing_wins() {
    let mut engine = GameEngine::new(duel(PlayerKind::Human, ["P1", "P2"]), generated_terrain(2));
    engine.state.buildings.remove(1);
    engine.tick();
    assert!(engine.is_finished());
    assert_eq!(engine.winner(), Some(0));
    assert_eq!(engine.state.phase, MatchPhase::Finished);
    assert_eq!(engine.state.winner_slot, Some(0));
}

#[test]
fn no_base_left_is_a_draw() {
    let mut engine = GameEngine::new(duel(PlayerKind::Human, ["P1", "P2"]), generated_terrain(2));
    engine.state.buildings.clear();
    engine.tick();
    assert!(engine.is_finished());
    assert_eq!(engine.winner(), None);
}

#[test]
fn time_limit_scores_and_ties_are_draws() {
    let mut engine = GameEngine::new(duel(PlayerKind::Human, ["P1", "P2"]), generated_terrain(2));
    engine.state.tick = 2000;
    engine.tick_count = 2000;
    engine.tick();
    // Equal bases, no units, equal energy: a tie.
    assert!(engine.is_finished());
    assert_eq!(engine.winner(), None);

    let mut engine = GameEngine::new(duel(PlayerKind::Human, ["P1", "P2"]), generated_terrain(2));
    engine.state.tick = 2000;
    engine.tick_count = 2000;
    engine.state.players[1].energy += 1;
    engine.tick();
    assert_eq!(engine.winner(), Some(1));
}

#[test]
fn the_time_limit_is_the_configured_one() {
    let mut config = duel(PlayerKind::Human, ["P1", "P2"]);
    config.max_ticks = 3;
    let mut engine = GameEngine::new(config, generated_terrain(2));
    for _ in 0..3 {
        engine.tick();
        assert!(!engine.is_finished());
    }
    engine.tick();
    assert!(engine.is_finished());
    assert_eq!(engine.state.phase, MatchPhase::Finished);
    assert_eq!(engine.state.tick, 4);

    let mut engine = GameEngine::new(duel(PlayerKind::Human, ["P1", "P2"]), generated_terrain(2));
    engine.state.tick = 1999;
    engine.tick_count = 1999;
    engine.tick();
    assert!(!engine.is_finished());
    engine.tick();
    assert!(engine.is_finished());
}

#[test]
fn a_tick_moves_a_unit_and_reports_it() {
    let mut engine = GameEngine::new(duel(PlayerKind::Human, ["P1", "P2"]), generated_terrain(2));
    engine.queue_command(Command::SpawnUnit { player_slot: 0, unit_type: UnitType::Worker });
    engine.tick();
    let id = engine.state.units[0].id.clone();
    engine.queue_command(Command::MoveUnit { player_slot: 0, unit_id: id.clone(), target_x: 5, target_y: 3 });
    let r = engine.tick();
    let u = &engine.state.units[0];
    assert_eq!(u.status, UnitStatus::Moving);
    assert_ne!(Position::new(u.x, u.y), Position::new(2, 2));
    assert_eq!(r.diff.units_moved.len(), 1);
    assert_eq!(r.diff.units_moved[0].id, id);
    assert_eq!(r.diff.resources_changed, vec![(0, STARTING_ENERGY - 50), (1, STARTING_ENERGY)]);
    assert_eq!(r.diff.tick, 1);
    assert_eq!(engine.state.tick, 2);
}
