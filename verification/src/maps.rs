//! Map layouts: where players start, where resource nodes lie, and the state a
//! match starts from.

use vstd::prelude::*;

use crate::config::{MapPreset, PlayerConfig, preset_player_count};
use crate::engine::{
    Building, BuildingModel, GameState, MAX_MAP_DIM, PlayerModel, PlayerState, ResourceNode, building_models,
    player_models, resource_models,
};
use crate::hex::Position;
use crate::ids::{new_id, uuid_shaped};
use crate::snapshot::clone_grid;
use crate::state::{BASE_HP, BuildingType, MatchPhase, ResourceModel, STARTING_ENERGY, Tile, grid_view};

verus! {

/// Width and height of generated maps.
pub const MAP_SIZE: u32 = 32;

/// Energy in every resource node of a generated map.
pub const NODE_ENERGY: i32 = 500;

/// Where a resource node lies and how much energy it holds.
#[derive(Clone, Copy, Debug, PartialEq, Eq, Structural)]
pub struct ResourceNodeConfig {
    pub x: i32,
    pub y: i32,
    pub energy: i32,
}

/// A map: its size, terrain, start positions and resource nodes.
pub struct MapConfig {
    pub width: u32,
    pub height: u32,
    pub terrain: Vec<Vec<Tile>>,
    pub start_positions: Vec<Position>,
    pub resource_nodes: Vec<ResourceNodeConfig>,
}

pub open spec fn pos(x: int, y: int) -> Position {
    Position { x: x as i32, y: y as i32 }
}

/// Start positions two cells in from the corners, then the middles of the top and
/// bottom edges, then of the left and right edges; up to eight, and eight for
/// any count above seven or of zero.
pub open spec fn start_positions(n: int, w: int, h: int) -> Seq<Position> {
    let m = 2;
    let corners4 = seq![pos(m, m), pos(w - 1 - m, m), pos(m, h - 1 - m), pos(w - 1 - m, h - 1 - m)];
    if n == 1 {
        seq![pos(m, m)]
    } else if n == 2 {
        seq![pos(m, m), pos(w - 1 - m, h - 1 - m)]
    } else if n == 3 {
        seq![pos(m, m), pos(w - 1 - m, m), pos(w / 2, h - 1 - m)]
    } else if n == 4 {
        corners4
    } else if n == 5 {
        corners4.push(pos(w / 2, m))
    } else if n == 6 {
        corners4.push(pos(w / 2, m)).push(pos(w / 2, h - 1 - m))
    } else if n == 7 {
        corners4.push(pos(w / 2, m)).push(pos(w / 2, h - 1 - m)).push(pos(m, h / 2))
    } else {
        corners4.push(pos(w / 2, m)).push(pos(w / 2, h - 1 - m)).push(pos(m, h / 2)).push(pos(w - 1 - m, h / 2))
    }
}

pub open spec fn node(x: int, y: int) -> ResourceNodeConfig {
    ResourceNodeConfig { x: x as i32, y: y as i32, energy: NODE_ENERGY }
}

/// The node near a start position, four cells toward the middle on each axis.
pub open spec fn node_near(s: Position, cx: int, cy: int) -> ResourceNodeConfig {
    node(s.x + if s.x < cx { 4int } else { -4int }, s.y + if s.y < cy { 4int } else { -4int })
}

/// Four nodes around the middle, one near each start, and four more farther out
/// for four or more players.
pub open spec fn resource_layout(n: int, w: int, h: int) -> Seq<ResourceNodeConfig> {
    let cx = w / 2;
    let cy = h / 2;
    let central = seq![node(cx + 2, cy + 2), node(cx - 2, cy + 2), node(cx + 2, cy - 2), node(cx - 2, cy - 2)];
    let near = start_positions(n, w, h).map_values(|s: Position| node_near(s, cx, cy));
    let extra = if n >= 4 {
        seq![node(cx + 8, cy), node(cx - 8, cy), node(cx, cy + 8), node(cx, cy - 8)]
    } else {
        Seq::empty()
    };
    central + near + extra
}

/// The start positions for a number of players on a map.
pub fn get_start_positions(player_count: usize, width: u32, height: u32) -> (r: Vec<Position>)
    requires
        width <= MAX_MAP_DIM,
        height <= MAX_MAP_DIM,
    ensures
        r@ == start_positions(player_count as int, width as int, height as int),
{
    let m: i32 = 2;
    let w = width as i32;
    let h = height as i32;
    let mut v: Vec<Position> = Vec::new();
    if player_count == 1 {
        v.push(Position::new(m, m));
    } else if player_count == 2 {
        v.push(Position::new(m, m));
        v.push(Position::new(w - 1 - m, h - 1 - m));
    } else if player_count == 3 {
        v.push(Position::new(m, m));
        v.push(Position::new(w - 1 - m, m));
        v.push(Position::new(w / 2, h - 1 - m));
    } else {
        v.push(Position::new(m, m));
        v.push(Position::new(w - 1 - m, m));
        v.push(Position::new(m, h - 1 - m));
        v.push(Position::new(w - 1 - m, h - 1 - m));
        if player_count != 4 {
            v.push(Position::new(w / 2, m));
            if player_count != 5 {
                v.push(Position::new(w / 2, h - 1 - m));
                if player_count != 6 {
                    v.push(Position::new(m, h / 2));
                    if player_count != 7 {
                        v.push(Position::new(w - 1 - m, h / 2));
                    }
                }
            }
        }
    }
    assert(v@ =~= start_positions(player_count as int, width as int, height as int));
    v
}

/// The resource nodes for a number of players on a map.
pub fn get_resource_nodes(player_count: usize, width: u32, height: u32) -> (r: Vec<ResourceNodeConfig>)
    requires
        width <= MAX_MAP_DIM,
        height <= MAX_MAP_DIM,
    ensures
        r@ == resource_layout(player_count as int, width as int, height as int),
{
    let cx = (width / 2) as i32;
    let cy = (height / 2) as i32;
    let mut nodes: Vec<ResourceNodeConfig> = Vec::new();
    nodes.push(ResourceNodeConfig { x: cx + 2, y: cy + 2, energy: NODE_ENERGY });
    nodes.push(ResourceNodeConfig { x: cx - 2, y: cy + 2, energy: NODE_ENERGY });
    nodes.push(ResourceNodeConfig { x: cx + 2, y: cy - 2, energy: NODE_ENERGY });
    nodes.push(ResourceNodeConfig { x: cx - 2, y: cy - 2, energy: NODE_ENERGY });
    let ghost central = nodes@;
    let starts = get_start_positions(player_count, width, height);
    let mut i: usize = 0;
    while i < starts.len()
        invariant
            0 <= i <= starts@.len(),
            cx == width as int / 2,
            cy == height as int / 2,
            width <= MAX_MAP_DIM,
            height <= MAX_MAP_DIM,
            starts@ == start_positions(player_count as int, width as int, height as int),
            nodes@ == central + starts@.take(i as int).map_values(|s: Position| node_near(s, cx as int, cy as int)),
        decreases starts@.len() - i,
    {
        let start = starts[i];
        let dx: i32 = if start.x < cx { 4 } else { -4 };
        let dy: i32 = if start.y < cy { 4 } else { -4 };
        nodes.push(ResourceNodeConfig { x: start.x + dx, y: start.y + dy, energy: NODE_ENERGY });
        assert(starts@.take(i + 1).map_values(|s: Position| node_near(s, cx as int, cy as int))
            =~= starts@.take(i as int).map_values(|s: Position| node_near(s, cx as int, cy as int)).push(node_near(start, cx as int, cy as int)));
        i = i + 1;
    }
    assert(starts@.take(starts@.len() as int) =~= starts@);
    if player_count >= 4 {
        nodes.push(ResourceNodeConfig { x: cx + 8, y: cy, energy: NODE_ENERGY });
        nodes.push(ResourceNodeConfig { x: cx - 8, y: cy, energy: NODE_ENERGY });
        nodes.push(ResourceNodeConfig { x: cx, y: cy + 8, energy: NODE_ENERGY });
        nodes.push(ResourceNodeConfig { x: cx, y: cy - 8, energy: NODE_ENERGY });
    }
    assert(nodes@ =~= resource_layout(player_count as int, width as int, height as int));
    nodes
}

/// A generated map for a number of players on the given terrain: start
/// positions and resource nodes laid out on a square map.
pub fn generate_map_config(player_count: usize, terrain: Vec<Vec<Tile>>) -> (c: MapConfig)
    ensures
        c.width == MAP_SIZE,
        c.height == MAP_SIZE,
        c.terrain == terrain,
        c.start_positions@ == start_positions(player_count as int, MAP_SIZE as int, MAP_SIZE as int),
        c.resource_nodes@ == resource_layout(player_count as int, MAP_SIZE as int, MAP_SIZE as int),
{
    let width = MAP_SIZE;
    let height = MAP_SIZE;
    let start_positions = get_start_positions(player_count, width, height);
    let resource_nodes = get_resource_nodes(player_count, width, height);
    MapConfig { width, height, terrain, start_positions, resource_nodes }
}

/// The map of a preset, on the given terrain.
pub fn map_config_for_preset(preset: &MapPreset, terrain: Vec<Vec<Tile>>) -> (c: MapConfig)
    ensures
        c.width == MAP_SIZE,
        c.height == MAP_SIZE,
        c.terrain == terrain,
        c.start_positions@ == start_positions(preset_player_count(*preset) as int, MAP_SIZE as int, MAP_SIZE as int),
        c.resource_nodes@ == resource_layout(preset_player_count(*preset) as int, MAP_SIZE as int, MAP_SIZE as int),
{
    generate_map_config(preset.player_count(), terrain)
}

/// A player's base as a match starts.
pub open spec fn start_base(slot: u8, p: Position, id: Seq<char>) -> BuildingModel {
    BuildingModel {
        id,
        player_slot: slot,
        building_type: BuildingType::Base,
        x: p.x,
        y: p.y,
        hp: BASE_HP,
        max_hp: BASE_HP,
    }
}

/// One base per player that has a start position, in order, each with a fresh id.
pub open spec fn bases_laid(bs: Seq<BuildingModel>, starts: Seq<Position>, pcs: Seq<PlayerConfig>) -> bool {
    &&& bs.len() == if starts.len() < pcs.len() { starts.len() } else { pcs.len() }
    &&& forall|i: int| 0 <= i < bs.len() ==>
        #[trigger] bs[i] == start_base(pcs[i].slot, starts[i], bs[i].id) && uuid_shaped(bs[i].id)
}

/// One player per base, with the starting energy and the id of its base.
pub open spec fn players_laid(ps: Seq<PlayerModel>, bs: Seq<BuildingModel>, pcs: Seq<PlayerConfig>) -> bool {
    &&& ps.len() == bs.len()
    &&& forall|i: int| 0 <= i < ps.len() ==>
        #[trigger] ps[i] == (PlayerModel { slot: pcs[i].slot, energy: STARTING_ENERGY, base_id: bs[i].id })
}

/// One resource node per configured node, each with a fresh id.
pub open spec fn nodes_laid(rs: Seq<ResourceModel>, cfg: Seq<ResourceNodeConfig>) -> bool {
    &&& rs.len() == cfg.len()
    &&& forall|i: int| 0 <= i < rs.len() ==>
        #[trigger] rs[i] == (ResourceModel { id: rs[i].id, x: cfg[i].x, y: cfg[i].y, remaining: cfg[i].energy })
        && uuid_shaped(rs[i].id)
}

/// The state a match starts from: a base and a player entry per player with a
/// start position, the map's resource nodes, no units, active, at tick zero.
pub fn create_game_state(config: &MapConfig, player_configs: &[PlayerConfig]) -> (s: GameState)
    ensures
        s.phase == MatchPhase::Active,
        s.tick == 0,
        s.map_width == config.width,
        s.map_height == config.height,
        grid_view(s.terrain@) == grid_view(config.terrain@),
        s.units@.len() == 0,
        bases_laid(building_models(s.buildings@), config.start_positions@, player_configs@),
        players_laid(player_models(s.players@), building_models(s.buildings@), player_configs@),
        nodes_laid(resource_models(s.resource_nodes@), config.resource_nodes@),
        s.visibility@.len() == 0,
        s.command_queue@.len() == 0,
        s.winner_slot is None,
        s.snapshot_units@.len() == 0,
        s.snapshot_buildings@.len() == 0,
{
    let n = if config.start_positions.len() < player_configs.len() {
        config.start_positions.len()
    } else {
        player_configs.len()
    };
    let mut buildings: Vec<Building> = Vec::new();
    let mut players: Vec<PlayerState> = Vec::new();
    let mut i: usize = 0;
    while i < n
        invariant
            0 <= i <= n,
            n <= config.start_positions@.len(),
            n <= player_configs@.len(),
            n == if config.start_positions@.len() < player_configs@.len() { config.start_positions@.len() } else { player_configs@.len() },
            buildings@.len() == i,
            players@.len() == i,
            forall|k: int| 0 <= k < i ==>
                #[trigger] buildings@[k]@ == start_base(player_configs@[k].slot, config.start_positions@[k], buildings@[k]@.id)
                && uuid_shaped(buildings@[k]@.id),
            forall|k: int| 0 <= k < i ==>
                #[trigger] players@[k]@ == (PlayerModel { slot: player_configs@[k].slot, energy: STARTING_ENERGY, base_id: buildings@[k]@.id }),
        decreases n - i,
    {
        let slot = player_configs[i].slot;
        let start = config.start_positions[i];
        let base_id = new_id();
        buildings.push(Building {
            id: base_id.clone(),
            player_slot: slot,
            building_type: BuildingType::Base,
            x: start.x,
            y: start.y,
            hp: BASE_HP,
            max_hp: BASE_HP,
        });
        players.push(PlayerState { slot, energy: STARTING_ENERGY, base_id });
        i = i + 1;
    }
    let mut resource_nodes: Vec<ResourceNode> = Vec::new();
    let mut r: usize = 0;
    while r < config.resource_nodes.len()
        invariant
            0 <= r <= config.resource_nodes@.len(),
            resource_nodes@.len() == r,
            forall|k: int| 0 <= k < r ==>
                #[trigger] resource_nodes@[k]@ == (ResourceModel {
                    id: resource_nodes@[k]@.id,
                    x: config.resource_nodes@[k].x,
                    y: config.resource_nodes@[k].y,
                    remaining: config.resource_nodes@[k].energy,
                })
                && uuid_shaped(resource_nodes@[k]@.id),
        decreases config.resource_nodes@.len() - r,
    {
        let cfg = config.resource_nodes[r];
        resource_nodes.push(ResourceNode { id: new_id(), x: cfg.x, y: cfg.y, remaining: cfg.energy });
        r = r + 1;
    }
    GameState {
        phase: MatchPhase::Active,
        tick: 0,
        map_width: config.width,
        map_height: config.height,
        terrain: clone_grid(&config.terrain),
        units: Vec::new(),
        buildings,
        resource_nodes,
        players,
        visibility: Vec::new(),
        command_queue: Vec::new(),
        winner_slot: None,
        snapshot_units: Vec::new(),
        snapshot_buildings: Vec::new(),
    }
}

/// Generated layouts stay on or near the map.
pub proof fn lemma_layout_bounds(n: int)
    ensures
        start_positions(n, MAP_SIZE as int, MAP_SIZE as int).len() <= 8,
        1 <= n <= 8 ==> start_positions(n, MAP_SIZE as int, MAP_SIZE as int).len() == n,
        forall|i: int| 0 <= i < start_positions(n, MAP_SIZE as int, MAP_SIZE as int).len() ==> {
            let p = #[trigger] start_positions(n, MAP_SIZE as int, MAP_SIZE as int)[i];
            0 <= p.x < MAP_SIZE && 0 <= p.y < MAP_SIZE
        },
        resource_layout(n, MAP_SIZE as int, MAP_SIZE as int).len() <= 16,
        forall|i: int| 0 <= i < resource_layout(n, MAP_SIZE as int, MAP_SIZE as int).len() ==> {
            let r = #[trigger] resource_layout(n, MAP_SIZE as int, MAP_SIZE as int)[i];
            -64 <= r.x <= 64 && -64 <= r.y <= 64 && r.energy == NODE_ENERGY
        },
{
    let w = MAP_SIZE as int;
    let starts = start_positions(n, w, w);
    assert forall|i: int| 0 <= i < starts.len() implies {
        let p = #[trigger] starts[i];
        0 <= p.x < MAP_SIZE && 0 <= p.y < MAP_SIZE
    } by {
        if n == 1 {
        } else if n == 2 {
        } else if n == 3 {
        } else if n == 4 {
        } else if n == 5 {
        } else if n == 6 {
        } else if n == 7 {
        } else {
        }
    }
    let cx = w / 2;
    let cy = w / 2;
    let central = seq![node(cx + 2, cy + 2), node(cx - 2, cy + 2), node(cx + 2, cy - 2), node(cx - 2, cy - 2)];
    let near = starts.map_values(|s: Position| node_near(s, cx, cy));
    let extra = if n >= 4 {
        seq![node(cx + 8, cy), node(cx - 8, cy), node(cx, cy + 8), node(cx, cy - 8)]
    } else {
        Seq::<ResourceNodeConfig>::empty()
    };
    let all = resource_layout(n, w, w);
    assert(all == central + near + extra);
    assert forall|i: int| 0 <= i < all.len() implies {
        let r = #[trigger] all[i];
        -64 <= r.x <= 64 && -64 <= r.y <= 64 && r.energy == NODE_ENERGY
    } by {
        if i < 4 {
            assert(all[i] == central[i]);
        } else if i < 4 + near.len() {
            assert(all[i] == near[i - 4]);
            assert(0 <= starts[i - 4].x < MAP_SIZE);
        } else {
            assert(all[i] == extra[i - 4 - near.len()]);
        }
    }
}

} // verus!
