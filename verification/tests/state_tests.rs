use battleform::state::{
    default_elevation, tile_movement_cost_halves, unit_stats, Tile, TileType, UnitType,
};

#[test]
fn test_unit_stats_lookup() {
    let stats = unit_stats(UnitType::Worker);
    assert_eq!(stats.cost, 50);
    assert_eq!(stats.hp, 30);
    assert_eq!(stats.speed, 2);
}

#[test]
fn unit_stats_table() {
    let s = unit_stats(UnitType::Soldier);
    assert_eq!((s.cost, s.hp, s.speed, s.range, s.damage, s.vision), (100, 80, 2, 1, 20, 3));
    let s = unit_stats(UnitType::Scout);
    assert_eq!((s.cost, s.hp, s.speed, s.range, s.damage, s.vision), (75, 40, 4, 1, 10, 6));
}

#[test]
fn movement_costs_in_half_steps() {
    assert_eq!(tile_movement_cost_halves(TileType::Grass), Some(2));
    assert_eq!(tile_movement_cost_halves(TileType::Desert), Some(3));
    assert_eq!(tile_movement_cost_halves(TileType::Forest), Some(3));
    assert_eq!(tile_movement_cost_halves(TileType::Snow), Some(4));
    assert_eq!(tile_movement_cost_halves(TileType::Mountain), None);
    assert_eq!(tile_movement_cost_halves(TileType::WaterLake), None);
    assert_eq!(tile_movement_cost_halves(TileType::WaterSea), None);
}

#[test]
fn defaults() {
    assert_eq!(default_elevation(), 1);
    let t = Tile::default();
    assert_eq!(t.tile_type, TileType::Grass);
    assert_eq!(t.elevation, 0);
    assert_eq!(TileType::default(), TileType::Grass);
}
