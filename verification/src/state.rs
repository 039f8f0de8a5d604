//! The game's shared vocabulary: tiles, units, buildings, the spectator view of a
//! match and the diffs that keep that view current.

use vstd::prelude::*;

use crate::engine::unit_ids;
use crate::hex::Position;
use crate::seqs::{first_index, lemma_first_index_is, lemma_first_index_absent, lemma_first_index_props, str_views, contains_id};

verus! {

/// Building constants.
pub const BASE_HP: i32 = 500;
pub const BASE_VISION: u32 = 4;
pub const HARVEST_AMOUNT: i32 = 25;
pub const STARTING_ENERGY: i32 = 200;

#[derive(Clone, Copy, Debug, PartialEq, Eq, Hash, Structural)]
pub enum TileType {
    Grass,
    Desert,
    Forest,
    Mountain,
    WaterLake,
    WaterSea,
    Snow,
}

impl Default for TileType {
    fn default() -> (t: Self)
        ensures
            t == TileType::Grass,
    {
        TileType::Grass
    }
}

/// A single hex tile in the terrain grid.
#[derive(Clone, Copy, Debug, PartialEq, Eq, Structural)]
pub struct Tile {
    pub tile_type: TileType,
    pub elevation: u8,
}

impl Default for Tile {
    fn default() -> (t: Self)
        ensures
            t.tile_type == TileType::Grass,
            t.elevation == 0,
    {
        Tile { tile_type: TileType::Grass, elevation: 0 }
    }
}

/// The elevation a tile has when its description leaves it out.
pub fn default_elevation() -> (e: u8)
    ensures
        e == 1,
{
    1
}

#[derive(Clone, Copy, Debug, PartialEq, Eq, Hash, Structural)]
pub enum UnitType {
    Worker,
    Soldier,
    Scout,
}

#[derive(Clone, Copy, Debug, PartialEq, Eq, Hash, Structural)]
pub enum UnitStatus {
    Idle,
    Moving,
    Attacking,
    Harvesting,
    Returning,
    Dead,
}

impl Default for UnitStatus {
    fn default() -> (s: Self)
        ensures
            s == UnitStatus::Idle,
    {
        UnitStatus::Idle
    }
}

#[derive(Clone, Copy, Debug, PartialEq, Eq, Hash, Structural)]
pub enum BuildingType {
    Base,
    Turret,
    Wall,
}

#[derive(Clone, Copy, Debug, PartialEq, Eq, Hash, Structural)]
pub enum VisibilityState {
    Unseen,
    PreviouslySeen,
    Visible,
}

impl Default for VisibilityState {
    fn default() -> (s: Self)
        ensures
            s == VisibilityState::Unseen,
    {
        VisibilityState::Unseen
    }
}

/// Match phase.
#[derive(Clone, Copy, Debug, PartialEq, Eq, Structural)]
pub enum MatchPhase {
    Lobby,
    Active,
    Finished,
}

impl Default for MatchPhase {
    fn default() -> (p: Self)
        ensures
            p == MatchPhase::Lobby,
    {
        MatchPhase::Lobby
    }
}

/// Unit stat table: cost, HP, speed, range, damage, vision.
#[derive(Clone, Copy, Debug, PartialEq, Eq, Structural)]
pub struct UnitStats {
    pub cost: i32,
    pub hp: i32,
    pub speed: u32,
    pub range: u32,
    pub damage: i32,
    pub vision: u32,
}

/// The stat table of each unit type.
pub open spec fn stats_of(unit_type: UnitType) -> UnitStats {
    match unit_type {
        UnitType::Worker => UnitStats { cost: 50, hp: 30, speed: 2, range: 1, damage: 5, vision: 3 },
        UnitType::Soldier => UnitStats { cost: 100, hp: 80, speed: 2, range: 1, damage: 20, vision: 3 },
        UnitType::Scout => UnitStats { cost: 75, hp: 40, speed: 4, range: 1, damage: 10, vision: 6 },
    }
}

pub fn unit_stats(unit_type: UnitType) -> (s: UnitStats)
    ensures
        s == stats_of(unit_type),
{
    match unit_type {
        UnitType::Worker => UnitStats { cost: 50, hp: 30, speed: 2, range: 1, damage: 5, vision: 3 },
        UnitType::Soldier => UnitStats { cost: 100, hp: 80, speed: 2, range: 1, damage: 20, vision: 3 },
        UnitType::Scout => UnitStats { cost: 75, hp: 40, speed: 4, range: 1, damage: 10, vision: 6 },
    }
}

/// Movement cost of a tile in half steps: grass 1, desert and forest 1.5, snow 2;
/// `None` for impassable mountain and water.
pub open spec fn tile_cost_halves(tile_type: TileType) -> Option<u32> {
    match tile_type {
        TileType::Grass => Some(2u32),
        TileType::Desert => Some(3u32),
        TileType::Forest => Some(3u32),
        TileType::Mountain => None,
        TileType::WaterLake => None,
        TileType::WaterSea => None,
        TileType::Snow => Some(4u32),
    }
}

/// Tile movement cost, counted in half steps (`None` for impassable terrain).
pub fn tile_movement_cost_halves(tile_type: TileType) -> (c: Option<u32>)
    ensures
        c == tile_cost_halves(tile_type),
{
    match tile_type {
        TileType::Grass => Some(2),
        TileType::Desert => Some(3),
        TileType::Forest => Some(3),
        TileType::Mountain => None,
        TileType::WaterLake => None,
        TileType::WaterSea => None,
        TileType::Snow => Some(4),
    }
}

/// Whether units can walk on a tile type.
pub open spec fn passable_type(tile_type: TileType) -> bool {
    tile_cost_halves(tile_type) is Some
}

pub open spec fn opt_str_view(o: Option<String>) -> Option<Seq<char>> {
    match o {
        Some(s) => Some(s@),
        None => None,
    }
}

pub fn clone_opt_str(o: &Option<String>) -> (r: Option<String>)
    ensures
        opt_str_view(r) == opt_str_view(*o),
{
    match o {
        Some(s) => Some(s.clone()),
        None => None,
    }
}

pub fn clone_positions(p: &Vec<Position>) -> (r: Vec<Position>)
    ensures
        r@ == p@,
{
    let mut r: Vec<Position> = Vec::new();
    let mut i: usize = 0;
    while i < p.len()
        invariant
            0 <= i <= p@.len(),
            r@ == p@.take(i as int),
        decreases p@.len() - i,
    {
        r.push(p[i]);
        i = i + 1;
        assert(r@ =~= p@.take(i as int));
    }
    assert(p@.take(p@.len() as int) =~= p@);
    r
}

pub struct UnitMove {
    pub id: String,
    pub x: i32,
    pub y: i32,
    pub status: UnitStatus,
}

pub struct UnitMoveModel {
    pub id: Seq<char>,
    pub x: i32,
    pub y: i32,
    pub status: UnitStatus,
}

impl View for UnitMove {
    type V = UnitMoveModel;

    open spec fn view(&self) -> UnitMoveModel {
        UnitMoveModel { id: self.id@, x: self.x, y: self.y, status: self.status }
    }
}

pub struct UnitView {
    pub id: String,
    pub player_slot: u8,
    pub unit_type: UnitType,
    pub x: i32,
    pub y: i32,
    pub hp: i32,
    pub max_hp: i32,
    pub status: UnitStatus,
    pub path: Vec<Position>,
    pub target_id: Option<String>,
    pub cargo: i32,
}

pub struct UnitModel {
    pub id: Seq<char>,
    pub player_slot: u8,
    pub unit_type: UnitType,
    pub x: i32,
    pub y: i32,
    pub hp: i32,
    pub max_hp: i32,
    pub status: UnitStatus,
    pub path: Seq<Position>,
    pub target_id: Option<Seq<char>>,
    pub cargo: i32,
}

impl View for UnitView {
    type V = UnitModel;

    open spec fn view(&self) -> UnitModel {
        UnitModel {
            id: self.id@,
            player_slot: self.player_slot,
            unit_type: self.unit_type,
            x: self.x,
            y: self.y,
            hp: self.hp,
            max_hp: self.max_hp,
            status: self.status,
            path: self.path@,
            target_id: opt_str_view(self.target_id),
            cargo: self.cargo,
        }
    }
}

pub struct BuildingView {
    pub id: String,
    pub player_slot: u8,
    pub building_type: BuildingType,
    pub x: i32,
    pub y: i32,
    pub hp: i32,
    pub max_hp: i32,
    pub energy: Option<i32>,
}

pub struct BuildingViewModel {
    pub id: Seq<char>,
    pub player_slot: u8,
    pub building_type: BuildingType,
    pub x: i32,
    pub y: i32,
    pub hp: i32,
    pub max_hp: i32,
    pub energy: Option<i32>,
}

impl View for BuildingView {
    type V = BuildingViewModel;

    open spec fn view(&self) -> BuildingViewModel {
        BuildingViewModel {
            id: self.id@,
            player_slot: self.player_slot,
            building_type: self.building_type,
            x: self.x,
            y: self.y,
            hp: self.hp,
            max_hp: self.max_hp,
            energy: self.energy,
        }
    }
}

pub struct ResourceView {
    pub id: String,
    pub x: i32,
    pub y: i32,
    pub remaining: i32,
}

pub struct ResourceModel {
    pub id: Seq<char>,
    pub x: i32,
    pub y: i32,
    pub remaining: i32,
}

impl View for ResourceView {
    type V = ResourceModel;

    open spec fn view(&self) -> ResourceModel {
        ResourceModel { id: self.id@, x: self.x, y: self.y, remaining: self.remaining }
    }
}

pub struct CombatEvent {
    pub attacker_id: String,
    pub target_id: String,
    pub damage: i32,
    pub x: i32,
    pub y: i32,
}

pub struct CombatEventModel {
    pub attacker_id: Seq<char>,
    pub target_id: Seq<char>,
    pub damage: i32,
    pub x: i32,
    pub y: i32,
}

impl View for CombatEvent {
    type V = CombatEventModel;

    open spec fn view(&self) -> CombatEventModel {
        CombatEventModel {
            attacker_id: self.attacker_id@,
            target_id: self.target_id@,
            damage: self.damage,
            x: self.x,
            y: self.y,
        }
    }
}

#[derive(Clone, Copy, Debug, PartialEq, Eq, Structural)]
pub struct VisUpdate {
    pub x: i32,
    pub y: i32,
    pub state: VisibilityState,
}

pub struct StateDiff {
    pub tick: u32,
    pub units_moved: Vec<UnitMove>,
    pub units_spawned: Vec<UnitView>,
    pub units_killed: Vec<String>,
    pub buildings_built: Vec<BuildingView>,
    pub buildings_destroyed: Vec<String>,
    pub combat_events: Vec<CombatEvent>,
    pub resources_changed: Vec<(u8, i32)>,
    pub visibility_updates: Vec<VisUpdate>,
    pub msg_type: Option<String>,
}

/// Complete game state snapshot as seen by the renderer / spectator.
pub struct GameStateView {
    pub tick: u32,
    pub map_width: u32,
    pub map_height: u32,
    pub terrain: Vec<Vec<Tile>>,
    pub units: Vec<UnitView>,
    pub buildings: Vec<BuildingView>,
    pub resources: Vec<ResourceView>,
    pub combat_events: Vec<CombatEvent>,
    pub visibility: Vec<Vec<VisibilityState>>,
    pub msg_type: Option<String>,
    pub players: Option<serde_json::Value>,
}

#[verifier::external_type_specification]
#[verifier::external_body]
pub struct ExJsonValue(serde_json::Value);

pub open spec fn unit_view_models(s: Seq<UnitView>) -> Seq<UnitModel> {
    s.map_values(|u: UnitView| u@)
}

pub open spec fn building_view_models(s: Seq<BuildingView>) -> Seq<BuildingViewModel> {
    s.map_values(|b: BuildingView| b@)
}

pub open spec fn unit_move_models(s: Seq<UnitMove>) -> Seq<UnitMoveModel> {
    s.map_values(|m: UnitMove| m@)
}

pub open spec fn combat_event_models(s: Seq<CombatEvent>) -> Seq<CombatEventModel> {
    s.map_values(|e: CombatEvent| e@)
}

pub open spec fn resource_view_models(s: Seq<ResourceView>) -> Seq<ResourceModel> {
    s.map_values(|r: ResourceView| r@)
}

pub open spec fn grid_view<T>(g: Seq<Vec<T>>) -> Seq<Seq<T>> {
    g.map_values(|row: Vec<T>| row@)
}

/// A unit move applies to the first unit with the moved id.
pub open spec fn apply_unit_move(units: Seq<UnitModel>, m: UnitMoveModel) -> Seq<UnitModel> {
    let j = first_index(unit_ids(units), m.id);
    if j < 0 {
        units
    } else {
        units.update(j, UnitModel { x: m.x, y: m.y, status: m.status, ..units[j] })
    }
}

pub open spec fn apply_unit_moves(units: Seq<UnitModel>, moves: Seq<UnitMoveModel>) -> Seq<UnitModel>
    decreases moves.len(),
{
    if moves.len() == 0 {
        units
    } else {
        apply_unit_move(apply_unit_moves(units, moves.drop_last()), moves.last())
    }
}

/// Each energy change sets the energy shown on every base of that player.
pub open spec fn apply_energy_change(bs: Seq<BuildingViewModel>, c: (u8, i32)) -> Seq<BuildingViewModel> {
    bs.map_values(|b: BuildingViewModel|
        if b.building_type == BuildingType::Base && b.player_slot == c.0 {
            BuildingViewModel { energy: Some(c.1), ..b }
        } else {
            b
        })
}

pub open spec fn apply_energy_changes(bs: Seq<BuildingViewModel>, cs: Seq<(u8, i32)>) -> Seq<BuildingViewModel>
    decreases cs.len(),
{
    if cs.len() == 0 {
        bs
    } else {
        apply_energy_change(apply_energy_changes(bs, cs.drop_last()), cs.last())
    }
}

/// A visibility update sets one cell; updates outside the grid are ignored.
pub open spec fn apply_vis_update(vis: Seq<Seq<VisibilityState>>, u: VisUpdate) -> Seq<Seq<VisibilityState>> {
    if 0 <= u.y < vis.len() && 0 <= u.x < vis[u.y as int].len() {
        vis.update(u.y as int, vis[u.y as int].update(u.x as int, u.state))
    } else {
        vis
    }
}

pub open spec fn apply_vis_updates(vis: Seq<Seq<VisibilityState>>, us: Seq<VisUpdate>) -> Seq<Seq<VisibilityState>>
    decreases us.len(),
{
    if us.len() == 0 {
        vis
    } else {
        apply_vis_update(apply_vis_updates(vis, us.drop_last()), us.last())
    }
}

/// The units a diff leaves: moves applied, spawned units appended, killed units removed.
pub open spec fn units_after_diff(units: Seq<UnitModel>, moved: Seq<UnitMoveModel>, spawned: Seq<UnitModel>, killed: Seq<Seq<char>>) -> Seq<UnitModel> {
    (apply_unit_moves(units, moved) + spawned).filter(|u: UnitModel| !killed.contains(u.id))
}

/// The buildings a diff leaves: built ones appended, destroyed ones removed, base energies set.
pub open spec fn buildings_after_diff(bs: Seq<BuildingViewModel>, built: Seq<BuildingViewModel>, destroyed: Seq<Seq<char>>, changes: Seq<(u8, i32)>) -> Seq<BuildingViewModel> {
    apply_energy_changes((bs + built).filter(|b: BuildingViewModel| !destroyed.contains(b.id)), changes)
}


pub open spec fn opt_index(r: Option<usize>) -> int {
    match r {
        Some(j) => j as int,
        None => -1,
    }
}

fn find_unit_view(units: &Vec<UnitView>, id: &String) -> (r: Option<usize>)
    ensures
        opt_index(r) == first_index(unit_ids(unit_view_models(units@)), id@),
{
    let ghost ids = unit_ids(unit_view_models(units@));
    let mut k: usize = 0;
    while k < units.len()
        invariant
            0 <= k <= units@.len(),
            ids == unit_ids(unit_view_models(units@)),
            forall|i: int| 0 <= i < k ==> ids[i] != id@,
        decreases units@.len() - k,
    {
        if units[k].id == *id {
            proof { lemma_first_index_is(ids, id@, k as int); }
            return Some(k);
        }
        k = k + 1;
    }
    proof { lemma_first_index_absent(ids, id@); }
    None
}

fn retain_unit_views(units: Vec<UnitView>, killed: &Vec<String>) -> (r: Vec<UnitView>)
    ensures
        unit_view_models(r@) == unit_view_models(units@).filter(|u: UnitModel| !str_views(killed@).contains(u.id)),
{
    let ghost pred = |u: UnitModel| !str_views(killed@).contains(u.id);
    let ghost all = unit_view_models(units@);
    let mut r: Vec<UnitView> = Vec::new();
    for u in it: units.into_iter()
        invariant
            all == unit_view_models(it.seq()),
            pred == (|u: UnitModel| !str_views(killed@).contains(u.id)),
            unit_view_models(r@) == all.take(it.index()).filter(pred),
    {
        let ghost before = r@;
        let ghost idx = it.index();
        proof {
            assert(all.take(idx + 1) =~= all.take(idx).push(all[idx]));
            all.take(idx).lemma_filter_push(all[idx], pred);
            assert(u@ == all[idx]);
        }
        let keep = !contains_id(killed, &u.id);
        assert(keep == pred(all[idx]));
        if keep {
            r.push(u);
            assert(unit_view_models(r@) =~= unit_view_models(before).push(all[idx]));
        }
        assert(unit_view_models(r@) == all.take(idx + 1).filter(pred));
    }
    assert(all.take(all.len() as int) =~= all);
    r
}


fn retain_building_views(bs: Vec<BuildingView>, destroyed: &Vec<String>) -> (r: Vec<BuildingView>)
    ensures
        building_view_models(r@) == building_view_models(bs@).filter(|b: BuildingViewModel| !str_views(destroyed@).contains(b.id)),
{
    let ghost pred = |b: BuildingViewModel| !str_views(destroyed@).contains(b.id);
    let ghost all = building_view_models(bs@);
    let mut r: Vec<BuildingView> = Vec::new();
    for b in it: bs.into_iter()
        invariant
            all == building_view_models(it.seq()),
            pred == (|b: BuildingViewModel| !str_views(destroyed@).contains(b.id)),
            building_view_models(r@) == all.take(it.index()).filter(pred),
    {
        let ghost before = r@;
        let ghost idx = it.index();
        proof {
            assert(all.take(idx + 1) =~= all.take(idx).push(all[idx]));
            all.take(idx).lemma_filter_push(all[idx], pred);
            assert(b@ == all[idx]);
        }
        let keep = !contains_id(destroyed, &b.id);
        if keep {
            r.push(b);
            assert(building_view_models(r@) =~= building_view_models(before).push(all[idx]));
        }
    }
    assert(all.take(all.len() as int) =~= all);
    r
}

fn apply_moves_to(units: &mut Vec<UnitView>, moves_v: &Vec<UnitMove>)
    ensures
        unit_view_models(final(units)@) == apply_unit_moves(unit_view_models(old(units)@), unit_move_models(moves_v@)),
{
    let ghost old_units = unit_view_models(units@);
    let ghost moves = unit_move_models(moves_v@);
    let mut i: usize = 0;
    while i < moves_v.len()
        invariant
            0 <= i <= moves_v@.len(),
            moves == unit_move_models(moves_v@),
            unit_view_models(units@) == apply_unit_moves(old_units, moves.take(i as int)),
        decreases moves_v@.len() - i,
    {
        let m = &moves_v[i];
        let ghost cur = unit_view_models(units@);
        let found = find_unit_view(units, &m.id);
        proof { lemma_first_index_props(unit_ids(cur), m.id@); }
        match found {
            Some(j) => {
                units[j].x = m.x;
                units[j].y = m.y;
                units[j].status = m.status;
                assert(unit_view_models(units@) =~= apply_unit_move(cur, m@));
            },
            None => {
                assert(unit_view_models(units@) =~= apply_unit_move(cur, m@));
            },
        }
        assert(moves.take(i + 1).drop_last() =~= moves.take(i as int));
        i = i + 1;
    }
    assert(moves.take(moves.len() as int) =~= moves);
}

fn apply_energy_to(bs: &mut Vec<BuildingView>, changes: &Vec<(u8, i32)>)
    ensures
        building_view_models(final(bs)@) == apply_energy_changes(building_view_models(old(bs)@), changes@),
{
    let ghost filtered = building_view_models(bs@);
    let mut c: usize = 0;
    while c < changes.len()
        invariant
            0 <= c <= changes@.len(),
            building_view_models(bs@) == apply_energy_changes(filtered, changes@.take(c as int)),
        decreases changes@.len() - c,
    {
        let (player_slot, new_energy) = changes[c];
        let ghost start = building_view_models(bs@);
        let ghost target = apply_energy_change(start, (player_slot, new_energy));
        let mut k: usize = 0;
        while k < bs.len()
            invariant
                0 <= k <= bs@.len(),
                bs@.len() == start.len(),
                target == apply_energy_change(start, (player_slot, new_energy)),
                forall|t: int| 0 <= t < k ==> #[trigger] bs@[t]@ == target[t],
                forall|t: int| k <= t < start.len() ==> #[trigger] bs@[t]@ == start[t],
            decreases bs@.len() - k,
        {
            let ghost b0 = start[k as int];
            assert(bs@[k as int]@ == b0);
            assert(target[k as int] == (if b0.building_type == BuildingType::Base && b0.player_slot == player_slot {
                BuildingViewModel { energy: Some(new_energy), ..b0 }
            } else {
                b0
            }));
            if bs[k].building_type == BuildingType::Base && bs[k].player_slot == player_slot {
                bs[k].energy = Some(new_energy);
                assert(bs@[k as int]@ == BuildingViewModel { energy: Some(new_energy), ..b0 });
            }
            assert(bs@[k as int]@ == target[k as int]);
            k = k + 1;
        }
        assert(building_view_models(bs@) =~= target);
        assert(changes@.take(c + 1).drop_last() =~= changes@.take(c as int));
        c = c + 1;
    }
    assert(changes@.take(changes@.len() as int) =~= changes@);
}

fn apply_vis_to(vis: &mut Vec<Vec<VisibilityState>>, ups: &Vec<VisUpdate>)
    ensures
        grid_view(final(vis)@) == apply_vis_updates(grid_view(old(vis)@), ups@),
{
    let ghost old_vis = grid_view(vis@);
    let mut v: usize = 0;
    while v < ups.len()
        invariant
            0 <= v <= ups@.len(),
            grid_view(vis@) == apply_vis_updates(old_vis, ups@.take(v as int)),
        decreases ups@.len() - v,
    {
        let u = ups[v];
        let ghost cur = grid_view(vis@);
        if u.y >= 0 && (u.y as usize) < vis.len() {
            let yy = u.y as usize;
            if u.x >= 0 && (u.x as usize) < vis[yy].len() {
                let xx = u.x as usize;
                vis[yy][xx] = u.state;
            }
        }
        assert(grid_view(vis@) =~= apply_vis_update(cur, u));
        assert(ups@.take(v + 1).drop_last() =~= ups@.take(v as int));
        v = v + 1;
    }
    assert(ups@.take(ups@.len() as int) =~= ups@);
}

impl GameStateView {
    /// Bring the view up to date with a diff.
    pub fn apply(&mut self, diff: StateDiff)
        ensures
            final(self).tick == diff.tick,
            unit_view_models(final(self).units@) == units_after_diff(
                unit_view_models(old(self).units@),
                unit_move_models(diff.units_moved@),
                unit_view_models(diff.units_spawned@),
                str_views(diff.units_killed@),
            ),
            building_view_models(final(self).buildings@) == buildings_after_diff(
                building_view_models(old(self).buildings@),
                building_view_models(diff.buildings_built@),
                str_views(diff.buildings_destroyed@),
                diff.resources_changed@,
            ),
            combat_event_models(final(self).combat_events@) == combat_event_models(diff.combat_events@),
            grid_view(final(self).visibility@) == apply_vis_updates(grid_view(old(self).visibility@), diff.visibility_updates@),
            final(self).map_width == old(self).map_width,
            final(self).map_height == old(self).map_height,
            final(self).terrain == old(self).terrain,
            final(self).resources == old(self).resources,
            final(self).msg_type == old(self).msg_type,
            final(self).players == old(self).players,
    {
        let StateDiff {
            tick,
            units_moved,
            mut units_spawned,
            units_killed,
            mut buildings_built,
            buildings_destroyed,
            combat_events,
            resources_changed,
            visibility_updates,
            msg_type: _,
        } = diff;
        self.tick = tick;

        let mut units: Vec<UnitView> = Vec::new();
        std::mem::swap(&mut units, &mut self.units);
        apply_moves_to(&mut units, &units_moved);
        let ghost moved_units = unit_view_models(units@);
        let ghost spawned = unit_view_models(units_spawned@);
        units.append(&mut units_spawned);
        assert(unit_view_models(units@) =~= moved_units + spawned);
        self.units = retain_unit_views(units, &units_killed);

        let mut bs: Vec<BuildingView> = Vec::new();
        std::mem::swap(&mut bs, &mut self.buildings);
        let ghost kept_bs = building_view_models(bs@);
        let ghost built = building_view_models(buildings_built@);
        bs.append(&mut buildings_built);
        assert(building_view_models(bs@) =~= kept_bs + built);
        let mut bs = retain_building_views(bs, &buildings_destroyed);
        apply_energy_to(&mut bs, &resources_changed);
        self.buildings = bs;

        self.combat_events = combat_events;

        let mut vis: Vec<Vec<VisibilityState>> = Vec::new();
        std::mem::swap(&mut vis, &mut self.visibility);
        apply_vis_to(&mut vis, &visibility_updates);
        self.visibility = vis;
    }
}

} // verus!
