use battleform::config::{MapPreset, PlayerConfig, PlayerKind};
use battleform::hex::Position;
use battleform::maps::{
    create_game_state, generate_map_config, get_resource_nodes, get_start_positions, map_config_for_preset,
    ResourceNodeConfig, MAP_SIZE,
};
use battleform::state::{BuildingType, MatchPhase, Tile, TileType, BASE_HP, STARTING_ENERGY};

fn grass() -> Vec<Vec<Tile>> {
    vec![vec![Tile { tile_type: TileType::Grass, elevation: 1 }; 32]; 32]
}

#[test]
fn start_positions_per_player_count() {
    assert_eq!(get_start_positions(1, 32, 32), vec![Position::new(2, 2)]);
    assert_eq!(get_start_positions(2, 32, 32), vec![Position::new(2, 2), Position::new(29, 29)]);
    assert_eq!(get_start_positions(3, 32, 32), vec![Position::new(2, 2), Position::new(29, 2), Position::new(16, 29)]);
    for n in 4..=8 {
        assert_eq!(get_start_positions(n, 32, 32).len(), n);
    }
    assert_eq!(get_start_positions(0, 32, 32).len(), 8);
    assert_eq!(get_start_positions(12, 32, 32).len(), 8);
    assert_eq!(get_start_positions(8, 32, 32)[7], Position::new(29, 16));
}

#[test]
fn resource_nodes_per_player_count() {
    let two = get_resource_nodes(2, 32, 32);
    assert_eq!(two.len(), 6);
    assert_eq!(two[0], ResourceNodeConfig { x: 18, y: 18, energy: 500 });
    assert_eq!(two[4], ResourceNodeConfig { x: 6, y: 6, energy: 500 });
    assert_eq!(two[5], ResourceNodeConfig { x: 25, y: 25, energy: 500 });
    let four = get_resource_nodes(4, 32, 32);
    assert_eq!(four.len(), 12);
    assert_eq!(four[8], ResourceNodeConfig { x: 24, y: 16, energy: 500 });
}

#[test]
fn presets_use_their_player_count() {
    let c = map_config_for_preset(&MapPreset::FreeForAll8, grass());
    assert_eq!((c.width, c.height), (MAP_SIZE, MAP_SIZE));
    assert_eq!(c.start_positions.len(), 8);
    assert_eq!(c.resource_nodes.len(), 16);
    let d = generate_map_config(2, grass());
    assert_eq!(d.start_positions.len(), 2);
    assert_eq!(d.terrain.len(), 32);
}

#[test]
fn a_new_match_has_a_base_per_placed_player() {
    let config = generate_map_config(2, grass());
    let players = vec![
        PlayerConfig { slot: 4, kind: PlayerKind::Human, name: "a".into() },
        PlayerConfig { slot: 9, kind: PlayerKind::Bot, name: "b".into() },
        PlayerConfig { slot: 5, kind: PlayerKind::Bot, name: "c".into() },
    ];
    let s = create_game_state(&config, &players);
    assert_eq!(s.phase, MatchPhase::Active);
    assert_eq!(s.tick, 0);
    assert_eq!(s.buildings.len(), 2);
    assert_eq!(s.players.len(), 2);
    assert_eq!(s.buildings[1].player_slot, 9);
    assert_eq!(s.buildings[1].building_type, BuildingType::Base);
    assert_eq!((s.buildings[1].x, s.buildings[1].y, s.buildings[1].hp), (29, 29, BASE_HP));
    assert_eq!(s.players[0].energy, STARTING_ENERGY);
    assert_eq!(s.players[0].base_id, s.buildings[0].id);
    assert_ne!(s.buildings[0].id, s.buildings[1].id);
    assert_eq!(s.resource_nodes.len(), 6);
    assert!(s.units.is_empty() && s.visibility.is_empty());
}
