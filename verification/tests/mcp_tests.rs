use battleform::config::{Command, MapPreset, MatchConfig, PlayerConfig, PlayerKind};
use battleform::game::GameEngine;
use battleform::mcp::{handle_request, handle_tool_call, plan_tool_call, McpReply, ToolArgs, ToolPlan, ToolReply, METHOD_NOT_FOUND};
use battleform::state::{MatchPhase, Tile, TileType, UnitType};

fn no_args() -> ToolArgs {
    ToolArgs { unit_type: None, unit_id: None, target_id: None, resource_id: None, x: None, y: None }
}

fn engine() -> GameEngine {
    let config = MatchConfig {
        map_preset: MapPreset::Duel,
        players: vec![
            PlayerConfig { slot: 0, kind: PlayerKind::McpAgent, name: "agent".into() },
            PlayerConfig { slot: 1, kind: PlayerKind::Bot, name: "bot".into() },
        ],
        max_ticks: 2000,
        tick_rate_ms: 100,
    };
    GameEngine::new(config, vec![vec![Tile { tile_type: TileType::Grass, elevation: 1 }; 32]; 32])
}

#[test]
fn spawn_defaults_to_a_worker() {
    match plan_tool_call(&engine().state, 3, &"spawn_unit".to_string(), &no_args()) {
        ToolPlan::Queue { command: Command::SpawnUnit { player_slot, unit_type }, message } => {
            assert_eq!(player_slot, 3);
            assert_eq!(unit_type, UnitType::Worker);
            assert_eq!(message, "Unit spawn queued");
        }
        _ => panic!("expected a queued spawn"),
    }
}

#[test]
fn unknown_unit_type_and_tool_are_rejected() {
    let mut args = no_args();
    args.unit_type = Some("dragon".to_string());
    match plan_tool_call(&engine().state, 0, &"spawn_unit".to_string(), &args) {
        ToolPlan::Reject { message } => assert_eq!(message, "Unknown unit type: dragon"),
        _ => panic!("expected a rejection"),
    }
    match plan_tool_call(&engine().state, 0, &"fly".to_string(), &no_args()) {
        ToolPlan::Reject { message } => assert_eq!(message, "Unknown tool: fly"),
        _ => panic!("expected a rejection"),
    }
}

#[test]
fn move_arguments_default_and_truncate() {
    let mut args = no_args();
    args.unit_id = Some("u7".to_string());
    args.x = Some(0x1_0000_0005);
    match plan_tool_call(&engine().state, 1, &"move_unit".to_string(), &args) {
        ToolPlan::Queue { command: Command::MoveUnit { player_slot, unit_id, target_x, target_y }, message } => {
            assert_eq!((player_slot, unit_id.as_str(), target_x, target_y), (1, "u7", 5, 0));
            assert_eq!(message, "Move command queued");
        }
        _ => panic!("expected a queued move"),
    }
}

#[test]
fn attack_and_harvest_are_queued() {
    let mut args = no_args();
    args.unit_id = Some("u".to_string());
    args.target_id = Some("t".to_string());
    args.resource_id = Some("r".to_string());
    match plan_tool_call(&engine().state, 0, &"attack_target".to_string(), &args) {
        ToolPlan::Queue { command: Command::AttackTarget { unit_id, target_id, .. }, message } => {
            assert_eq!((unit_id.as_str(), target_id.as_str()), ("u", "t"));
            assert_eq!(message, "Attack command queued");
        }
        _ => panic!("expected a queued attack"),
    }
    match plan_tool_call(&engine().state, 0, &"harvest".to_string(), &args) {
        ToolPlan::Queue { command: Command::Harvest { unit_id, resource_id, .. }, message } => {
            assert_eq!((unit_id.as_str(), resource_id.as_str()), ("u", "r"));
            assert_eq!(message, "Harvest command queued");
        }
        _ => panic!("expected a queued harvest"),
    }
    match plan_tool_call(&engine().state, 0, &"get_game_state".to_string(), &args) {
        ToolPlan::Snapshot => {}
        _ => panic!("expected a snapshot"),
    }
}

#[test]
fn tool_calls_queue_on_the_engine() {
    let mut e = engine();
    let mut args = no_args();
    args.unit_type = Some("scout".to_string());
    match handle_tool_call(&mut e, 0, &"spawn_unit".to_string(), &args) {
        ToolReply::Text(t) => assert_eq!(t, "Unit spawn queued"),
        _ => panic!("expected a text answer"),
    }
    assert_eq!(e.state.command_queue.len(), 1);
    match handle_tool_call(&mut e, 0, &"get_game_state".to_string(), &no_args()) {
        ToolReply::GameState(v) => assert_eq!(v.map_width, 32),
        _ => panic!("expected the game state"),
    }
    e.state.phase = MatchPhase::Finished;
    handle_tool_call(&mut e, 0, &"spawn_unit".to_string(), &args);
    assert_eq!(e.state.command_queue.len(), 1);
}

#[test]
fn requests_are_dispatched_by_method() {
    let mut e = engine();
    assert!(matches!(handle_request(&mut e, 0, &"initialize".to_string(), &None, &no_args()), McpReply::Initialize));
    assert!(matches!(handle_request(&mut e, 0, &"tools/list".to_string(), &None, &no_args()), McpReply::ToolList));
    assert!(matches!(handle_request(&mut e, 0, &"ping".to_string(), &None, &no_args()), McpReply::Empty));
    assert!(matches!(
        handle_request(&mut e, 0, &"notifications/initialized".to_string(), &None, &no_args()),
        McpReply::Empty
    ));
    match handle_request(&mut e, 0, &"tools/call".to_string(), &None, &no_args()) {
        McpReply::Tool(ToolReply::Error(m)) => assert_eq!(m, "Unknown tool: "),
        _ => panic!("expected a tool error"),
    }
    match handle_request(&mut e, 0, &"tools/call".to_string(), &Some("spawn_unit".to_string()), &no_args()) {
        McpReply::Tool(ToolReply::Text(m)) => assert_eq!(m, "Unit spawn queued"),
        _ => panic!("expected a queued spawn"),
    }
    match handle_request(&mut e, 0, &"resources/list".to_string(), &None, &no_args()) {
        McpReply::Failure { code, message } => {
            assert_eq!(code, METHOD_NOT_FOUND);
            assert_eq!(message, "Method not found: resources/list");
        }
        _ => panic!("expected a failure"),
    }
}

#[test]
fn spawn_without_enough_energy_is_refused_with_cost_and_energy() {
    let mut e = engine();
    e.state.players[0].energy = 50;
    let mut args = no_args();
    args.unit_type = Some("soldier".to_string());
    match handle_tool_call(&mut e, 0, &"spawn_unit".to_string(), &args) {
        ToolReply::Error(m) => assert_eq!(m, "Insufficient energy: soldier costs 100, you have 50"),
        _ => panic!("expected an error"),
    }
    assert!(e.state.command_queue.is_empty());
    // A worker costs exactly what is left: it is queued.
    args.unit_type = Some("worker".to_string());
    match handle_tool_call(&mut e, 0, &"spawn_unit".to_string(), &args) {
        ToolReply::Text(m) => assert_eq!(m, "Unit spawn queued"),
        _ => panic!("expected a queued spawn"),
    }
    assert_eq!(e.state.command_queue.len(), 1);
    e.state.players[0].energy = 0;
    args.unit_type = Some("scout".to_string());
    match plan_tool_call(&e.state, 0, &"spawn_unit".to_string(), &args) {
        ToolPlan::Reject { message } => assert_eq!(message, "Insufficient energy: scout costs 75, you have 0"),
        _ => panic!("expected a rejection"),
    }
}

#[test]
fn game_state_is_limited_to_what_the_caller_sees() {
    let mut e = engine();
    for slot in [0u8, 1u8] {
        match handle_tool_call(&mut e, slot, &"get_game_state".to_string(), &no_args()) {
            ToolReply::GameState(v) => {
                assert!(v.terrain.is_empty());
                assert_eq!((v.map_width, v.map_height), (32, 32));
                assert_eq!(v.buildings.len(), 1);
                assert_eq!(v.buildings[0].player_slot, slot);
                assert_eq!(v.buildings[0].energy, Some(200));
                assert_eq!(v.visibility, e.state.visibility[slot as usize]);
                for r in &v.resources {
                    assert_eq!(
                        v.visibility[r.y as usize][r.x as usize],
                        battleform::state::VisibilityState::Visible
                    );
                }
            }
            _ => panic!("expected the game state"),
        }
    }
    // A caller that holds no slot sees nothing but the map.
    match handle_tool_call(&mut e, 7, &"get_game_state".to_string(), &no_args()) {
        ToolReply::GameState(v) => {
            assert!(v.units.is_empty() && v.buildings.is_empty() && v.resources.is_empty());
            assert!(v.visibility.is_empty());
            assert_eq!(v.map_width, 32);
        }
        _ => panic!("expected the game state"),
    }
}
