//! The authoritative match state and the engine that advances it tick by tick.

use vstd::prelude::*;

use crate::config::Command;
use crate::hex::{Position, coord_ok};
use crate::seqs::{first_index, first_where, lemma_first_index_is, lemma_first_index_absent, lemma_first_where_is, lemma_first_where_absent, lemma_sum_element_le, lemma_sum_nonneg, lemma_sum_push, lemma_sum_update, sum};
use crate::state::{
    BuildingType, MatchPhase, ResourceModel, Tile, UnitModel, UnitStatus, UnitType, VisibilityState,
    clone_opt_str, clone_positions, opt_index, opt_str_view, passable_type, tile_cost_halves, tile_movement_cost_halves,
};

verus! {

/// Largest map side the engine is proved for: the path search indexes one flag
/// per cell (at most 2^28 cells) and keeps at most six search nodes per cell, a
/// count that must fit a 32-bit `usize`; every cell's coordinates then also stay
/// within `COORD_LIMIT`, where hex distances are computed without overflow.
pub const MAX_MAP_DIM: u32 = 0x4000;

/// Bound on hit points of units and buildings: a score adds the hit points of
/// up to `BUILDING_LIMIT` bases in an `i32` (512 * 2^20 = 2^29), and damage is
/// subtracted from hit points without going below `i32::MIN`.
pub const HP_LIMIT: i32 = 0x10_0000;

/// Bound on a match's economy: energy held, carried and unharvested,
/// plus fifty per living unit. A score adds a player's energy and ten per unit
/// (both below 2^25) to its bases' hit points (below 2^29) in an `i32`, and
/// deposits add cargo to energy in an `i32`.
pub const ECONOMY_LIMIT: i64 = 0x200_0000;

/// Bound on the number of buildings, for the sum of base hit points in a score
/// (see `HP_LIMIT`).
pub const BUILDING_LIMIT: usize = 512;

/// Internal unit representation (engine-side, not the view).
pub struct Unit {
    pub id: String,
    pub player_slot: u8,
    pub unit_type: UnitType,
    pub x: i32,
    pub y: i32,
    pub hp: i32,
    pub max_hp: i32,
    pub status: UnitStatus,
    pub path: Vec<Position>,
    pub target_id: Option<String>,
    pub cargo: i32,
}

impl View for Unit {
    type V = UnitModel;

    open spec fn view(&self) -> UnitModel {
        UnitModel {
            id: self.id@,
            player_slot: self.player_slot,
            unit_type: self.unit_type,
            x: self.x,
            y: self.y,
            hp: self.hp,
            max_hp: self.max_hp,
            status: self.status,
            path: self.path@,
            target_id: opt_str_view(self.target_id),
            cargo: self.cargo,
        }
    }
}

impl Clone for Unit {
    fn clone(&self) -> (r: Self)
        ensures
            r@ == self@,
    {
        Unit {
            id: self.id.clone(),
            player_slot: self.player_slot,
            unit_type: self.unit_type,
            x: self.x,
            y: self.y,
            hp: self.hp,
            max_hp: self.max_hp,
            status: self.status,
            path: clone_positions(&self.path),
            target_id: clone_opt_str(&self.target_id),
            cargo: self.cargo,
        }
    }
}

/// Internal building representation.
pub struct Building {
    pub id: String,
    pub player_slot: u8,
    pub building_type: BuildingType,
    pub x: i32,
    pub y: i32,
    pub hp: i32,
    pub max_hp: i32,
}

pub struct BuildingModel {
    pub id: Seq<char>,
    pub player_slot: u8,
    pub building_type: BuildingType,
    pub x: i32,
    pub y: i32,
    pub hp: i32,
    pub max_hp: i32,
}

impl View for Building {
    type V = BuildingModel;

    open spec fn view(&self) -> BuildingModel {
        BuildingModel {
            id: self.id@,
            player_slot: self.player_slot,
            building_type: self.building_type,
            x: self.x,
            y: self.y,
            hp: self.hp,
            max_hp: self.max_hp,
        }
    }
}

impl Clone for Building {
    fn clone(&self) -> (r: Self)
        ensures
            r@ == self@,
    {
        Building {
            id: self.id.clone(),
            player_slot: self.player_slot,
            building_type: self.building_type,
            x: self.x,
            y: self.y,
            hp: self.hp,
            max_hp: self.max_hp,
        }
    }
}

/// Internal resource node.
pub struct ResourceNode {
    pub id: String,
    pub x: i32,
    pub y: i32,
    pub remaining: i32,
}

impl View for ResourceNode {
    type V = ResourceModel;

    open spec fn view(&self) -> ResourceModel {
        ResourceModel { id: self.id@, x: self.x, y: self.y, remaining: self.remaining }
    }
}

/// Per-player state.
pub struct PlayerState {
    pub slot: u8,
    pub energy: i32,
    pub base_id: String,
}

pub struct PlayerModel {
    pub slot: u8,
    pub energy: i32,
    pub base_id: Seq<char>,
}

impl View for PlayerState {
    type V = PlayerModel;

    open spec fn view(&self) -> PlayerModel {
        PlayerModel { slot: self.slot, energy: self.energy, base_id: self.base_id@ }
    }
}

/// Internal game state (authoritative, not the view).
pub struct GameState {
    pub phase: MatchPhase,
    pub tick: u32,
    pub map_width: u32,
    pub map_height: u32,
    pub terrain: Vec<Vec<Tile>>,
    pub units: Vec<Unit>,
    pub buildings: Vec<Building>,
    pub resource_nodes: Vec<ResourceNode>,
    pub players: Vec<PlayerState>,
    pub visibility: Vec<Vec<Vec<VisibilityState>>>,
    pub command_queue: Vec<Command>,
    pub winner_slot: Option<u8>,
    /// Units as they were when the current tick began, for diffing.
    pub snapshot_units: Vec<Unit>,
    /// Buildings as they were when the current tick began, for diffing.
    pub snapshot_buildings: Vec<Building>,
}

pub open spec fn unit_models(s: Seq<Unit>) -> Seq<UnitModel> {
    s.map_values(|u: Unit| u@)
}

pub open spec fn building_models(s: Seq<Building>) -> Seq<BuildingModel> {
    s.map_values(|b: Building| b@)
}

pub open spec fn resource_models(s: Seq<ResourceNode>) -> Seq<ResourceModel> {
    s.map_values(|r: ResourceNode| r@)
}

pub open spec fn player_models(s: Seq<PlayerState>) -> Seq<PlayerModel> {
    s.map_values(|p: PlayerState| p@)
}

pub open spec fn unit_ids(s: Seq<UnitModel>) -> Seq<Seq<char>> {
    s.map_values(|u: UnitModel| u.id)
}

pub open spec fn building_ids(s: Seq<BuildingModel>) -> Seq<Seq<char>> {
    s.map_values(|b: BuildingModel| b.id)
}

pub open spec fn resource_ids(s: Seq<ResourceModel>) -> Seq<Seq<char>> {
    s.map_values(|r: ResourceModel| r.id)
}

pub open spec fn player_slots(s: Seq<PlayerModel>) -> Seq<u8> {
    s.map_values(|p: PlayerModel| p.slot)
}

pub open spec fn unit_pos(u: UnitModel) -> Position {
    Position { x: u.x, y: u.y }
}

pub open spec fn building_pos(b: BuildingModel) -> Position {
    Position { x: b.x, y: b.y }
}

pub open spec fn resource_pos(r: ResourceModel) -> Position {
    Position { x: r.x, y: r.y }
}

/// Index of the first base of a player, or -1.
pub open spec fn base_index(bs: Seq<BuildingModel>, slot: u8) -> int {
    first_where(bs, |b: BuildingModel| b.player_slot == slot && b.building_type == BuildingType::Base)
}

/// A grid of `h` rows of `w` cells.
pub open spec fn grid_dims<T>(g: Seq<Vec<T>>, w: int, h: int) -> bool {
    &&& g.len() == h
    &&& forall|i: int| 0 <= i < h ==> (#[trigger] g[i])@.len() == w
}

pub open spec fn unit_ok(u: UnitModel) -> bool {
    &&& coord_ok(unit_pos(u))
    &&& -HP_LIMIT <= u.hp <= HP_LIMIT
    &&& 0 <= u.cargo
    &&& forall|i: int| 0 <= i < u.path.len() ==> coord_ok(#[trigger] u.path[i])
}

pub open spec fn building_ok(b: BuildingModel) -> bool {
    &&& coord_ok(building_pos(b))
    &&& -HP_LIMIT <= b.hp <= HP_LIMIT
}

pub open spec fn resource_ok(r: ResourceModel) -> bool {
    &&& coord_ok(resource_pos(r))
    &&& 0 <= r.remaining
}

pub open spec fn energies(ps: Seq<PlayerModel>) -> Seq<int> {
    ps.map_values(|p: PlayerModel| p.energy as int)
}

pub open spec fn cargos(us: Seq<UnitModel>) -> Seq<int> {
    us.map_values(|u: UnitModel| u.cargo as int)
}

pub open spec fn remainders(rs: Seq<ResourceModel>) -> Seq<int> {
    rs.map_values(|r: ResourceModel| r.remaining as int)
}

/// Energy held by players, carried by units and left in resource nodes,
/// plus fifty for every living unit.
pub open spec fn economy(w: World) -> int {
    sum(energies(w.players)) + sum(cargos(w.units)) + sum(remainders(w.resources)) + 50 * w.units.len()
}

/// The bounds that keep every rule's arithmetic in range, and every unit
/// belonging to a player of the match.
pub open spec fn world_ok(w: World) -> bool {
    &&& forall|i: int| 0 <= i < w.units.len() ==> unit_ok(#[trigger] w.units[i])
    &&& forall|i: int| 0 <= i < w.buildings.len() ==> building_ok(#[trigger] w.buildings[i])
    &&& forall|i: int| 0 <= i < w.resources.len() ==> resource_ok(#[trigger] w.resources[i])
    &&& forall|i: int| 0 <= i < w.players.len() ==> 0 <= #[trigger] w.players[i].energy
    &&& forall|i: int, j: int| 0 <= i < j < w.players.len() ==> w.players[i].slot != w.players[j].slot
    &&& forall|i: int| 0 <= i < w.units.len() ==> player_slots(w.players).contains((#[trigger] w.units[i]).player_slot)
    &&& w.buildings.len() <= BUILDING_LIMIT
    &&& economy(w) <= ECONOMY_LIMIT
}

pub proof fn lemma_energies_update(ps: Seq<PlayerModel>, i: int, p: PlayerModel)
    requires
        0 <= i < ps.len(),
    ensures
        sum(energies(ps.update(i, p))) == sum(energies(ps)) - ps[i].energy + p.energy,
{
    assert(energies(ps.update(i, p)) =~= energies(ps).update(i, p.energy as int));
    lemma_sum_update(energies(ps), i, p.energy as int);
}

pub proof fn lemma_cargos_update(us: Seq<UnitModel>, i: int, u: UnitModel)
    requires
        0 <= i < us.len(),
    ensures
        sum(cargos(us.update(i, u))) == sum(cargos(us)) - us[i].cargo + u.cargo,
{
    assert(cargos(us.update(i, u)) =~= cargos(us).update(i, u.cargo as int));
    lemma_sum_update(cargos(us), i, u.cargo as int);
}

pub proof fn lemma_cargos_push(us: Seq<UnitModel>, u: UnitModel)
    ensures
        sum(cargos(us.push(u))) == sum(cargos(us)) + u.cargo,
{
    assert(cargos(us.push(u)) =~= cargos(us).push(u.cargo as int));
    lemma_sum_push(cargos(us), u.cargo as int);
}

pub proof fn lemma_remainders_update(rs: Seq<ResourceModel>, i: int, r: ResourceModel)
    requires
        0 <= i < rs.len(),
    ensures
        sum(remainders(rs.update(i, r))) == sum(remainders(rs)) - rs[i].remaining + r.remaining,
{
    assert(remainders(rs.update(i, r)) =~= remainders(rs).update(i, r.remaining as int));
    lemma_sum_update(remainders(rs), i, r.remaining as int);
}

impl GameState {
    /// The terrain grid matches the map's dimensions.
    pub open spec fn terrain_ok(&self) -> bool {
        &&& self.map_width <= MAX_MAP_DIM
        &&& self.map_height <= MAX_MAP_DIM
        &&& grid_dims(self.terrain@, self.map_width as int, self.map_height as int)
    }

    /// The state invariant every engine operation keeps.
    pub open spec fn wf(&self) -> bool {
        &&& self.terrain_ok()
        &&& 1 <= self.map_width
        &&& 1 <= self.map_height
        &&& forall|i: int| 0 <= i < self.visibility@.len()
            ==> grid_dims(#[trigger] self.visibility@[i]@, self.map_width as int, self.map_height as int)
        &&& world_ok(world(self))
    }

    pub open spec fn in_bounds(&self, p: Position) -> bool {
        0 <= p.x < self.map_width && 0 <= p.y < self.map_height
    }

    pub open spec fn tile_at(&self, p: Position) -> Tile {
        self.terrain@[p.y as int]@[p.x as int]
    }

    pub open spec fn building_at(&self, p: Position) -> bool {
        exists|i: int| 0 <= i < self.buildings@.len() && #[trigger] building_pos(self.buildings@[i]@) == p
    }

    /// A cell units cannot enter: off the map, impassable terrain, or a building.
    pub open spec fn blocked(&self, p: Position) -> bool {
        ||| !self.in_bounds(p)
        ||| !passable_type(self.tile_at(p).tile_type)
        ||| self.building_at(p)
    }

    pub fn is_blocked(&self, x: i32, y: i32) -> (b: bool)
        requires
            grid_dims(self.terrain@, self.map_width as int, self.map_height as int),
        ensures
            b == self.blocked(Position { x, y }),
    {
        if x < 0 || y < 0 || x as i64 >= self.map_width as i64 || y as i64 >= self.map_height as i64 {
            return true;
        }
        let tile = self.terrain[y as usize][x as usize];
        if tile_movement_cost_halves(tile.tile_type).is_none() {
            return true;
        }
        let mut i: usize = 0;
        while i < self.buildings.len()
            invariant
                0 <= i <= self.buildings@.len(),
                forall|k: int| 0 <= k < i ==> building_pos(#[trigger] self.buildings@[k]@) != (Position { x, y }),
            decreases self.buildings@.len() - i,
        {
            if self.buildings[i].x == x && self.buildings[i].y == y {
                assert(building_pos(self.buildings@[i as int]@) == (Position { x, y }));
                return true;
            }
            i = i + 1;
        }
        false
    }

    /// Movement cost of a cell in half steps; `None` off the map or on impassable terrain.
    pub fn get_movement_cost_halves(&self, x: i32, y: i32) -> (c: Option<u32>)
        requires
            grid_dims(self.terrain@, self.map_width as int, self.map_height as int),
        ensures
            !self.in_bounds(Position { x, y }) ==> c is None,
            self.in_bounds(Position { x, y }) ==> c == tile_cost_halves(self.tile_at(Position { x, y }).tile_type),
    {
        if x < 0 || y < 0 || x as i64 >= self.map_width as i64 || y as i64 >= self.map_height as i64 {
            return None;
        }
        let tile = self.terrain[y as usize][x as usize];
        tile_movement_cost_halves(tile.tile_type)
    }

    /// The first base of a player.
    pub fn get_player_base(&self, slot: u8) -> (r: Option<&Building>)
        ensures
            base_index(building_models(self.buildings@), slot) == -1 ==> r is None,
            base_index(building_models(self.buildings@), slot) >= 0 ==> (r matches Some(b)
                && b@ == building_models(self.buildings@)[base_index(building_models(self.buildings@), slot)]),
    {
        let ghost bs = building_models(self.buildings@);
        let ghost pred = |b: BuildingModel| b.player_slot == slot && b.building_type == BuildingType::Base;
        let mut i: usize = 0;
        while i < self.buildings.len()
            invariant
                0 <= i <= self.buildings@.len(),
                bs == building_models(self.buildings@),
                pred == (|b: BuildingModel| b.player_slot == slot && b.building_type == BuildingType::Base),
                forall|k: int| 0 <= k < i ==> !pred(#[trigger] bs[k]),
            decreases self.buildings@.len() - i,
        {
            if self.buildings[i].player_slot == slot && self.buildings[i].building_type == BuildingType::Base {
                proof { lemma_first_where_is(bs, pred, i as int); }
                return Some(&self.buildings[i]);
            }
            i = i + 1;
        }
        proof { lemma_first_where_absent(bs, pred); }
        None
    }

    /// Remember the current units and buildings as the start of a tick.
    pub fn snapshot_for_diff(&mut self)
        ensures
            unit_models(final(self).snapshot_units@) == unit_models(old(self).units@),
            building_models(final(self).snapshot_buildings@) == building_models(old(self).buildings@),
            final(self).units == old(self).units,
            final(self).buildings == old(self).buildings,
            final(self).phase == old(self).phase,
            final(self).tick == old(self).tick,
            final(self).map_width == old(self).map_width,
            final(self).map_height == old(self).map_height,
            final(self).terrain == old(self).terrain,
            final(self).resource_nodes == old(self).resource_nodes,
            final(self).players == old(self).players,
            final(self).visibility == old(self).visibility,
            final(self).command_queue == old(self).command_queue,
            final(self).winner_slot == old(self).winner_slot,
    {
        self.snapshot_units = clone_units(&self.units);
        self.snapshot_buildings = clone_buildings(&self.buildings);
    }
}


/// The parts of a match the rules change: units, buildings, resource nodes and players.
pub struct World {
    pub units: Seq<UnitModel>,
    pub buildings: Seq<BuildingModel>,
    pub resources: Seq<ResourceModel>,
    pub players: Seq<PlayerModel>,
}

pub open spec fn world(s: &GameState) -> World {
    World {
        units: unit_models(s.units@),
        buildings: building_models(s.buildings@),
        resources: resource_models(s.resource_nodes@),
        players: player_models(s.players@),
    }
}

/// Everything but units, buildings, resource nodes and players is the same.
pub open spec fn same_frame(a: &GameState, b: &GameState) -> bool {
    &&& a.phase == b.phase
    &&& a.tick == b.tick
    &&& a.map_width == b.map_width
    &&& a.map_height == b.map_height
    &&& a.terrain == b.terrain
    &&& a.visibility == b.visibility
    &&& a.command_queue == b.command_queue
    &&& a.winner_slot == b.winner_slot
    &&& a.snapshot_units == b.snapshot_units
    &&& a.snapshot_buildings == b.snapshot_buildings
}

/// Index of the first unit with an id.
pub open spec fn unit_with(w: World, id: Seq<char>) -> int {
    first_index(unit_ids(w.units), id)
}

/// Index of the first unit with an id that a player owns.
pub open spec fn owned_unit(w: World, slot: u8, id: Seq<char>) -> int {
    first_where(w.units, |u: UnitModel| u.id == id && u.player_slot == slot)
}

pub open spec fn building_with(w: World, id: Seq<char>) -> int {
    first_index(building_ids(w.buildings), id)
}

pub open spec fn resource_with(w: World, id: Seq<char>) -> int {
    first_index(resource_ids(w.resources), id)
}

pub open spec fn player_with(w: World, slot: u8) -> int {
    first_index(player_slots(w.players), slot)
}

/// A cell that is not blocked lies on the map, so its coordinates are small.
pub proof fn lemma_unblocked_coord_ok(s: &GameState, p: Position)
    requires
        s.terrain_ok(),
        !s.blocked(p),
    ensures
        coord_ok(p),
        s.in_bounds(p),
{
}


pub fn find_unit(units: &Vec<Unit>, id: &String) -> (r: Option<usize>)
    ensures
        opt_index(r) == first_index(unit_ids(unit_models(units@)), id@),
{
    let ghost ids = unit_ids(unit_models(units@));
    let mut k: usize = 0;
    while k < units.len()
        invariant
            0 <= k <= units@.len(),
            ids == unit_ids(unit_models(units@)),
            forall|i: int| 0 <= i < k ==> ids[i] != id@,
        decreases units@.len() - k,
    {
        if units[k].id == *id {
            proof { lemma_first_index_is(ids, id@, k as int); }
            return Some(k);
        }
        k = k + 1;
    }
    proof { lemma_first_index_absent(ids, id@); }
    None
}

pub fn find_owned_unit(units: &Vec<Unit>, slot: u8, id: &String) -> (r: Option<usize>)
    ensures
        opt_index(r) == first_where(unit_models(units@), |u: UnitModel| u.id == id@ && u.player_slot == slot),
{
    let ghost us = unit_models(units@);
    let ghost pred = |u: UnitModel| u.id == id@ && u.player_slot == slot;
    let mut k: usize = 0;
    while k < units.len()
        invariant
            0 <= k <= units@.len(),
            us == unit_models(units@),
            pred == (|u: UnitModel| u.id == id@ && u.player_slot == slot),
            forall|i: int| 0 <= i < k ==> !pred(#[trigger] us[i]),
        decreases units@.len() - k,
    {
        if units[k].id == *id && units[k].player_slot == slot {
            proof { lemma_first_where_is(us, pred, k as int); }
            return Some(k);
        }
        k = k + 1;
    }
    proof { lemma_first_where_absent(us, pred); }
    None
}

pub fn find_building(bs: &Vec<Building>, id: &String) -> (r: Option<usize>)
    ensures
        opt_index(r) == first_index(building_ids(building_models(bs@)), id@),
{
    let ghost ids = building_ids(building_models(bs@));
    let mut k: usize = 0;
    while k < bs.len()
        invariant
            0 <= k <= bs@.len(),
            ids == building_ids(building_models(bs@)),
            forall|i: int| 0 <= i < k ==> ids[i] != id@,
        decreases bs@.len() - k,
    {
        if bs[k].id == *id {
            proof { lemma_first_index_is(ids, id@, k as int); }
            return Some(k);
        }
        k = k + 1;
    }
    proof { lemma_first_index_absent(ids, id@); }
    None
}

pub fn find_resource(rs: &Vec<ResourceNode>, id: &String) -> (r: Option<usize>)
    ensures
        opt_index(r) == first_index(resource_ids(resource_models(rs@)), id@),
{
    let ghost ids = resource_ids(resource_models(rs@));
    let mut k: usize = 0;
    while k < rs.len()
        invariant
            0 <= k <= rs@.len(),
            ids == resource_ids(resource_models(rs@)),
            forall|i: int| 0 <= i < k ==> ids[i] != id@,
        decreases rs@.len() - k,
    {
        if rs[k].id == *id {
            proof { lemma_first_index_is(ids, id@, k as int); }
            return Some(k);
        }
        k = k + 1;
    }
    proof { lemma_first_index_absent(ids, id@); }
    None
}

pub fn find_player(ps: &Vec<PlayerState>, slot: u8) -> (r: Option<usize>)
    ensures
        opt_index(r) == first_index(player_slots(player_models(ps@)), slot),
{
    let ghost ids = player_slots(player_models(ps@));
    let mut k: usize = 0;
    while k < ps.len()
        invariant
            0 <= k <= ps@.len(),
            ids == player_slots(player_models(ps@)),
            forall|i: int| 0 <= i < k ==> ids[i] != slot,
        decreases ps@.len() - k,
    {
        if ps[k].slot == slot {
            proof { lemma_first_index_is(ids, slot, k as int); }
            return Some(k);
        }
        k = k + 1;
    }
    proof { lemma_first_index_absent(ids, slot); }
    None
}


/// Living units are paid for out of the economy, so there are never many of them.
pub proof fn lemma_units_bound(w: World)
    requires
        world_ok(w),
    ensures
        w.units.len() * 50 <= ECONOMY_LIMIT,
        w.units.len() <= 671088,
{
    assert forall|i: int| 0 <= i < energies(w.players).len() implies 0 <= #[trigger] energies(w.players)[i] by {
        assert(0 <= w.players[i].energy);
    }
    assert forall|i: int| 0 <= i < cargos(w.units).len() implies 0 <= #[trigger] cargos(w.units)[i] by {
        assert(unit_ok(w.units[i]));
    }
    assert forall|i: int| 0 <= i < remainders(w.resources).len() implies 0 <= #[trigger] remainders(w.resources)[i] by {
        assert(resource_ok(w.resources[i]));
    }
    lemma_sum_nonneg(energies(w.players));
    lemma_sum_nonneg(cargos(w.units));
    lemma_sum_nonneg(remainders(w.resources));
}

/// No player holds more energy than the whole economy.
pub proof fn lemma_energy_bound(w: World, i: int)
    requires
        world_ok(w),
        0 <= i < w.players.len(),
    ensures
        0 <= w.players[i].energy <= ECONOMY_LIMIT,
{
    lemma_units_bound(w);
    assert forall|k: int| 0 <= k < energies(w.players).len() implies 0 <= #[trigger] energies(w.players)[k] by {
        assert(0 <= w.players[k].energy);
    }
    assert forall|k: int| 0 <= k < cargos(w.units).len() implies 0 <= #[trigger] cargos(w.units)[k] by {
        assert(unit_ok(w.units[k]));
    }
    assert forall|k: int| 0 <= k < remainders(w.resources).len() implies 0 <= #[trigger] remainders(w.resources)[k] by {
        assert(resource_ok(w.resources[k]));
    }
    lemma_sum_element_le(energies(w.players), i);
    lemma_sum_nonneg(cargos(w.units));
    lemma_sum_nonneg(remainders(w.resources));
}

pub fn clone_units(v: &Vec<Unit>) -> (r: Vec<Unit>)
    ensures
        unit_models(r@) == unit_models(v@),
{
    let mut r: Vec<Unit> = Vec::new();
    let mut i: usize = 0;
    while i < v.len()
        invariant
            0 <= i <= v@.len(),
            r@.len() == i,
            forall|k: int| 0 <= k < i ==> #[trigger] r@[k]@ == v@[k]@,
        decreases v@.len() - i,
    {
        r.push(v[i].clone());
        i = i + 1;
    }
    assert(unit_models(r@) =~= unit_models(v@));
    r
}

pub fn clone_buildings(v: &Vec<Building>) -> (r: Vec<Building>)
    ensures
        building_models(r@) == building_models(v@),
{
    let mut r: Vec<Building> = Vec::new();
    let mut i: usize = 0;
    while i < v.len()
        invariant
            0 <= i <= v@.len(),
            r@.len() == i,
            forall|k: int| 0 <= k < i ==> #[trigger] r@[k]@ == v@[k]@,
        decreases v@.len() - i,
    {
        r.push(v[i].clone());
        i = i + 1;
    }
    assert(building_models(r@) =~= building_models(v@));
    r
}

} // verus!
