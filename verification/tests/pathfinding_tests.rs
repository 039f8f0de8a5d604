use battleform::engine::{Building, GameState};
use battleform::hex::{hex_distance, hex_neighbors, Position};
use battleform::pathfinding::find_path;
use battleform::state::{BuildingType, MatchPhase, Tile, TileType};

fn make_state(width: u32, height: u32) -> GameState {
    let terrain = (0..height)
        .map(|_| (0..width).map(|_| Tile { tile_type: TileType::Grass, elevation: 1 }).collect())
        .collect();

    GameState {
        phase: MatchPhase::Active,
        tick: 0,
        map_width: width,
        map_height: height,
        terrain,
        units: vec![],
        buildings: vec![],
        resource_nodes: vec![],
        players: vec![],
        visibility: vec![],
        command_queue: vec![],
        winner_slot: None,
        snapshot_units: vec![],
        snapshot_buildings: vec![],
    }
}

#[test]
fn test_same_position() {
    let state = make_state(10, 10);
    let path = find_path(&state, Position::new(5, 5), Position::new(5, 5));
    assert!(path.is_empty());
}

#[test]
fn test_adjacent_path() {
    let state = make_state(10, 10);
    let path = find_path(&state, Position::new(3, 3), Position::new(4, 3));
    assert!(!path.is_empty());
    assert_eq!(*path.last().unwrap(), Position::new(4, 3));
}

#[test]
fn test_blocked_destination() {
    let mut state = make_state(10, 10);
    state.terrain[5][5] = Tile { tile_type: TileType::Mountain, elevation: 3 };
    let path = find_path(&state, Position::new(3, 3), Position::new(5, 5));
    assert!(path.is_empty());
}

fn assert_walk(state: &GameState, start: Position, end: Position, path: &[Position]) {
    let mut prev = start;
    for step in path {
        assert_eq!(hex_distance(prev, *step), 1);
        assert!(!state.is_blocked(step.x, step.y));
        prev = *step;
    }
    assert_eq!(prev, end);
}

#[test]
fn path_on_open_grid_is_shortest_walk() {
    let state = make_state(10, 10);
    let start = Position::new(1, 1);
    let end = Position::new(8, 6);
    let path = find_path(&state, start, end);
    assert_walk(&state, start, end, &path);
    assert_eq!(path.len() as u32, hex_distance(start, end));
}

#[test]
fn path_goes_around_a_wall() {
    let mut state = make_state(10, 10);
    for y in 0..9 {
        state.terrain[y][5] = Tile { tile_type: TileType::WaterLake, elevation: 0 };
    }
    let start = Position::new(2, 2);
    let end = Position::new(8, 2);
    let path = find_path(&state, start, end);
    assert!(!path.is_empty());
    assert_walk(&state, start, end, &path);
    assert!(path.iter().any(|p| p.y == 9));
}

#[test]
fn no_path_to_a_walled_in_cell() {
    let mut state = make_state(10, 10);
    for y in 0..10 {
        state.terrain[y][5] = Tile { tile_type: TileType::Mountain, elevation: 3 };
    }
    let path = find_path(&state, Position::new(2, 2), Position::new(8, 2));
    assert!(path.is_empty());
}

#[test]
fn buildings_block_destinations_and_off_map_is_blocked() {
    let mut state = make_state(10, 10);
    state.buildings.push(Building {
        id: "b".to_string(),
        player_slot: 0,
        building_type: BuildingType::Base,
        x: 6,
        y: 6,
        hp: 500,
        max_hp: 500,
    });
    assert!(state.is_blocked(6, 6));
    assert!(state.is_blocked(-1, 0));
    assert!(state.is_blocked(10, 3));
    assert!(!state.is_blocked(0, 0));
    assert!(find_path(&state, Position::new(1, 1), Position::new(6, 6)).is_empty());
    assert!(find_path(&state, Position::new(1, 1), Position::new(12, 1)).is_empty());
}

fn mixed_terrain(width: u32, height: u32) -> GameState {
    let mut state = make_state(width, height);
    for y in 0..height as usize {
        for x in 0..width as usize {
            let tile_type = match (x * 7 + y * 3) % 6 {
                0 => TileType::Grass,
                1 => TileType::Desert,
                2 => TileType::Forest,
                3 => TileType::Snow,
                4 => TileType::Grass,
                _ => TileType::Mountain,
            };
            state.terrain[y][x] = Tile { tile_type, elevation: 1 };
        }
    }
    state
}

fn walk_cost(state: &GameState, path: &[Position]) -> u32 {
    path.iter().map(|p| state.get_movement_cost_halves(p.x, p.y).unwrap()).sum()
}

/// Least cost of reaching each cell from `start`, by plain Dijkstra over all cells.
fn least_costs(state: &GameState, start: Position) -> Vec<Vec<Option<u32>>> {
    let (w, h) = (state.map_width as usize, state.map_height as usize);
    let mut dist: Vec<Vec<Option<u32>>> = vec![vec![None; w]; h];
    let mut done = vec![vec![false; w]; h];
    dist[start.y as usize][start.x as usize] = Some(0);
    loop {
        let mut best: Option<(usize, usize, u32)> = None;
        for y in 0..h {
            for x in 0..w {
                if let Some(d) = dist[y][x] {
                    if !done[y][x] && best.map_or(true, |b| d < b.2) {
                        best = Some((x, y, d));
                    }
                }
            }
        }
        let Some((x, y, d)) = best else { break };
        done[y][x] = true;
        for n in hex_neighbors(Position::new(x as i32, y as i32)) {
            if state.is_blocked(n.x, n.y) {
                continue;
            }
            let nd = d + state.get_movement_cost_halves(n.x, n.y).unwrap();
            let slot = &mut dist[n.y as usize][n.x as usize];
            if slot.map_or(true, |old| nd < old) {
                *slot = Some(nd);
            }
        }
    }
    dist
}

#[test]
fn path_costs_no_more_than_any_other_walk() {
    let state = mixed_terrain(12, 12);
    let starts = [Position::new(0, 0), Position::new(4, 7), Position::new(11, 3)];
    for start in starts {
        assert!(!state.is_blocked(start.x, start.y));
        let dist = least_costs(&state, start);
        for y in 0..12 {
            for x in 0..12 {
                let end = Position::new(x, y);
                let path = find_path(&state, start, end);
                if end == start || state.is_blocked(x, y) {
                    assert!(path.is_empty());
                    continue;
                }
                match dist[y as usize][x as usize] {
                    Some(d) => {
                        assert_walk(&state, start, end, &path);
                        assert_eq!(walk_cost(&state, &path), d);
                    }
                    None => assert!(path.is_empty()),
                }
            }
        }
    }
}

#[test]
fn path_prefers_cheap_ground_over_a_short_snowfield() {
    let mut state = make_state(10, 10);
    for x in 3..=6 {
        for y in 0..10 {
            if y != 8 {
                state.terrain[y][x] = Tile { tile_type: TileType::Snow, elevation: 2 };
            }
        }
    }
    let start = Position::new(1, 7);
    let end = Position::new(8, 7);
    let path = find_path(&state, start, end);
    assert_walk(&state, start, end, &path);
    let dist = least_costs(&state, start);
    assert_eq!(Some(walk_cost(&state, &path)), dist[7][8]);
    assert!(path.iter().any(|p| p.y == 8 && (3..=6).contains(&p.x)));
}
