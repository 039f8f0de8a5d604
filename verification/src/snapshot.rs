//! What the renderer is told: a full snapshot of a match, or what changed in a tick.

use vstd::prelude::*;

use crate::engine::{
    Building, BuildingModel, GameState, PlayerModel, Unit, building_ids, building_models, find_player,
    player_models, player_slots, resource_models, unit_ids, unit_models,
};
use crate::seqs::{first_index, lemma_filter_map_step, lemma_first_index_props};
use crate::state::{
    BuildingView, BuildingViewModel, GameStateView, ResourceView, StateDiff, UnitModel, UnitMove,
    UnitMoveModel, UnitView, VisibilityState, building_view_models, clone_opt_str, clone_positions,
    ResourceModel, grid_view, resource_view_models, unit_move_models, unit_view_models,
};
use crate::seqs::str_views;

verus! {

/// The energy of the first player with a slot, if any.
pub open spec fn slot_energy(ps: Seq<PlayerModel>, slot: u8) -> Option<i32> {
    let j = first_index(player_slots(ps), slot);
    if j >= 0 { Some(ps[j].energy) } else { None }
}

/// How a building is shown, with the energy shown on it.
pub open spec fn building_view(b: BuildingModel, energy: Option<i32>) -> BuildingViewModel {
    BuildingViewModel {
        id: b.id,
        player_slot: b.player_slot,
        building_type: b.building_type,
        x: b.x,
        y: b.y,
        hp: b.hp,
        max_hp: b.max_hp,
        energy,
    }
}

/// Every building shown with its owner's energy.
pub open spec fn snapshot_buildings(bs: Seq<BuildingModel>, ps: Seq<PlayerModel>) -> Seq<BuildingViewModel> {
    bs.map_values(|b: BuildingModel| building_view(b, slot_energy(ps, b.player_slot)))
}

/// A snapshot shows a state: its tick and map, every unit, every building with
/// its owner's energy, every resource node, and the first player's fog.
pub open spec fn shows(v: &GameStateView, s: &GameState) -> bool {
    &&& v.tick == s.tick
    &&& v.map_width == s.map_width
    &&& v.map_height == s.map_height
    &&& grid_view(v.terrain@) == grid_view(s.terrain@)
    &&& unit_view_models(v.units@) == unit_models(s.units@)
    &&& building_view_models(v.buildings@) == snapshot_buildings(building_models(s.buildings@), player_models(s.players@))
    &&& resource_view_models(v.resources@) == resource_models(s.resource_nodes@)
    &&& v.combat_events@.len() == 0
    &&& grid_view(v.visibility@) == if s.visibility@.len() == 0 {
        Seq::<Seq<VisibilityState>>::empty()
    } else {
        grid_view(s.visibility@[0]@)
    }
    &&& v.msg_type is None
    &&& v.players is None
}

/// The fog grid of the first player with a slot; empty when there is no such
/// player or no grid for it.
pub open spec fn player_grid(s: &GameState, slot: u8) -> Seq<Seq<VisibilityState>> {
    let j = first_index(player_slots(player_models(s.players@)), slot);
    if 0 <= j < s.visibility@.len() {
        grid_view(s.visibility@[j]@)
    } else {
        Seq::<Seq<VisibilityState>>::empty()
    }
}

/// The cell lies in the grid and is visible in it.
pub open spec fn sees(g: Seq<Seq<VisibilityState>>, x: i32, y: i32) -> bool {
    0 <= y < g.len() && 0 <= x < g[y as int].len() && g[y as int][x as int] == VisibilityState::Visible
}

pub open spec fn unit_seen_by(g: Seq<Seq<VisibilityState>>, slot: u8) -> spec_fn(UnitModel) -> bool {
    |u: UnitModel| u.player_slot == slot || sees(g, u.x, u.y)
}

pub open spec fn building_seen_by(g: Seq<Seq<VisibilityState>>, slot: u8) -> spec_fn(BuildingModel) -> bool {
    |b: BuildingModel| b.player_slot == slot || sees(g, b.x, b.y)
}

pub open spec fn resource_seen_in(g: Seq<Seq<VisibilityState>>) -> spec_fn(ResourceModel) -> bool {
    |r: ResourceModel| sees(g, r.x, r.y)
}

/// A building as a player is shown it: its own buildings carry its energy,
/// other players' buildings carry none.
pub open spec fn building_shown_to(ps: Seq<PlayerModel>, slot: u8) -> spec_fn(BuildingModel) -> BuildingViewModel {
    |b: BuildingModel| building_view(b, if b.player_slot == slot { slot_energy(ps, slot) } else { None })
}

/// A snapshot shows a state as the player in `slot` sees it: the tick and the
/// map's size, but no terrain; its own units and buildings and those of others
/// on cells visible to it; the resource nodes on visible cells; its own energy
/// and nobody else's; and its own fog grid.
pub open spec fn shows_to(v: &GameStateView, s: &GameState, slot: u8) -> bool {
    let g = player_grid(s, slot);
    &&& v.tick == s.tick
    &&& v.map_width == s.map_width
    &&& v.map_height == s.map_height
    &&& v.terrain@.len() == 0
    &&& unit_view_models(v.units@) == unit_models(s.units@).filter(unit_seen_by(g, slot))
    &&& building_view_models(v.buildings@) == building_models(s.buildings@).filter(building_seen_by(g, slot))
        .map_values(building_shown_to(player_models(s.players@), slot))
    &&& resource_view_models(v.resources@) == resource_models(s.resource_nodes@).filter(resource_seen_in(g))
    &&& v.combat_events@.len() == 0
    &&& grid_view(v.visibility@) == g
    &&& v.msg_type is None
    &&& v.players is None
}

/// What a player is shown depends only on what it can see: two states with the
/// same tick and map size, the same fog grid for the player, the same energy for it,
/// and the same units, buildings and resource nodes among those it is shown
/// are shown to it alike.
pub proof fn lemma_shown_only_what_is_seen(v: &GameStateView, s1: &GameState, s2: &GameState, slot: u8)
    requires
        shows_to(v, s1, slot),
        s1.tick == s2.tick,
        s1.map_width == s2.map_width,
        s1.map_height == s2.map_height,
        player_grid(s1, slot) == player_grid(s2, slot),
        slot_energy(player_models(s1.players@), slot) == slot_energy(player_models(s2.players@), slot),
        unit_models(s1.units@).filter(unit_seen_by(player_grid(s1, slot), slot))
            == unit_models(s2.units@).filter(unit_seen_by(player_grid(s2, slot), slot)),
        building_models(s1.buildings@).filter(building_seen_by(player_grid(s1, slot), slot))
            == building_models(s2.buildings@).filter(building_seen_by(player_grid(s2, slot), slot)),
        resource_models(s1.resource_nodes@).filter(resource_seen_in(player_grid(s1, slot)))
            == resource_models(s2.resource_nodes@).filter(resource_seen_in(player_grid(s2, slot))),
    ensures
        shows_to(v, s2, slot),
{
    assert(building_shown_to(player_models(s1.players@), slot) =~= building_shown_to(player_models(s2.players@), slot));
}

/// A unit moved when it was there at the start of the tick (the first with its id)
/// and its position or status is different now.
pub open spec fn unit_changed(snap: Seq<UnitModel>, u: UnitModel) -> bool {
    let j = first_index(unit_ids(snap), u.id);
    j >= 0 && (snap[j].x != u.x || snap[j].y != u.y || snap[j].status != u.status)
}

pub open spec fn move_of(u: UnitModel) -> UnitMoveModel {
    UnitMoveModel { id: u.id, x: u.x, y: u.y, status: u.status }
}

/// The moves of a tick, in the order of the current units.
pub open spec fn moves_between(snap: Seq<UnitModel>, units: Seq<UnitModel>) -> Seq<UnitMoveModel> {
    units.filter(|u: UnitModel| unit_changed(snap, u)).map_values(|u: UnitModel| move_of(u))
}

/// Units whose id was not there at the start of the tick.
pub open spec fn spawned_between(snap: Seq<UnitModel>, units: Seq<UnitModel>) -> Seq<UnitModel> {
    units.filter(|u: UnitModel| !unit_ids(snap).contains(u.id))
}

/// Ids of units of the start of the tick that are gone.
pub open spec fn killed_between(snap: Seq<UnitModel>, units: Seq<UnitModel>) -> Seq<Seq<char>> {
    unit_ids(snap.filter(|u: UnitModel| !unit_ids(units).contains(u.id)))
}

/// Buildings whose id was not there at the start of the tick, shown without energy.
pub open spec fn built_between(snap: Seq<BuildingModel>, bs: Seq<BuildingModel>) -> Seq<BuildingViewModel> {
    bs.filter(|b: BuildingModel| !building_ids(snap).contains(b.id)).map_values(|b: BuildingModel| building_view(b, None))
}

/// Ids of buildings of the start of the tick that are gone.
pub open spec fn destroyed_between(snap: Seq<BuildingModel>, bs: Seq<BuildingModel>) -> Seq<Seq<char>> {
    building_ids(snap.filter(|b: BuildingModel| !building_ids(bs).contains(b.id)))
}

/// Every player's slot and energy.
pub open spec fn energy_report(ps: Seq<PlayerModel>) -> Seq<(u8, i32)> {
    ps.map_values(|p: PlayerModel| (p.slot, p.energy))
}

/// Nothing changed, nothing reported: comparing the units and buildings of a
/// state with themselves gives no moves, spawns, deaths, new buildings or
/// losses, when no two units share an id (so that a unit is compared with
/// itself and not with an earlier namesake).
pub proof fn lemma_unchanged_diff_is_empty(us: Seq<UnitModel>, bs: Seq<BuildingModel>)
    requires
        forall|i: int, j: int| 0 <= i < j < us.len() ==> us[i].id != us[j].id,
    ensures
        moves_between(us, us) == Seq::<UnitMoveModel>::empty(),
        spawned_between(us, us) == Seq::<UnitModel>::empty(),
        killed_between(us, us) == Seq::<Seq<char>>::empty(),
        built_between(bs, bs) == Seq::<BuildingViewModel>::empty(),
        destroyed_between(bs, bs) == Seq::<Seq<char>>::empty(),
{
    let ids = unit_ids(us);
    let bids = building_ids(bs);
    assert forall|i: int| 0 <= i < us.len() implies !unit_changed(us, #[trigger] us[i]) by {
        assert(ids[i] == us[i].id);
        assert forall|k: int| 0 <= k < i implies ids[k] != us[i].id by {
            assert(ids[k] == us[k].id);
        }
        crate::seqs::lemma_first_index_is(ids, us[i].id, i);
    }
    crate::seqs::lemma_filter_none(us, |u: UnitModel| unit_changed(us, u));
    assert forall|i: int| 0 <= i < us.len() implies ids.contains(#[trigger] us[i].id) by {
        assert(ids[i] == us[i].id);
    }
    crate::seqs::lemma_filter_none(us, |u: UnitModel| !unit_ids(us).contains(u.id));
    assert(us.filter(|u: UnitModel| !unit_ids(us).contains(u.id)) == Seq::<UnitModel>::empty());
    assert forall|i: int| 0 <= i < bs.len() implies bids.contains(#[trigger] bs[i].id) by {
        assert(bids[i] == bs[i].id);
    }
    crate::seqs::lemma_filter_none(bs, |b: BuildingModel| !building_ids(bs).contains(b.id));
    assert(unit_ids(Seq::<UnitModel>::empty()) =~= Seq::<Seq<char>>::empty());
    assert(building_ids(Seq::<BuildingModel>::empty()) =~= Seq::<Seq<char>>::empty());
    assert(Seq::<BuildingModel>::empty().map_values(|b: BuildingModel| building_view(b, None)) =~= Seq::<BuildingViewModel>::empty());
    assert(Seq::<UnitModel>::empty().map_values(|u: UnitModel| move_of(u)) =~= Seq::<UnitMoveModel>::empty());
}

fn has_unit_id(units: &Vec<Unit>, id: &String) -> (b: bool)
    ensures
        b == unit_ids(unit_models(units@)).contains(id@),
{
    let ghost ids = unit_ids(unit_models(units@));
    let mut k: usize = 0;
    while k < units.len()
        invariant
            0 <= k <= units@.len(),
            ids == unit_ids(unit_models(units@)),
            forall|i: int| 0 <= i < k ==> ids[i] != id@,
        decreases units@.len() - k,
    {
        if units[k].id == *id {
            assert(ids[k as int] == id@);
            return true;
        }
        k = k + 1;
    }
    false
}

fn has_building_id(bs: &Vec<Building>, id: &String) -> (b: bool)
    ensures
        b == building_ids(building_models(bs@)).contains(id@),
{
    let ghost ids = building_ids(building_models(bs@));
    let mut k: usize = 0;
    while k < bs.len()
        invariant
            0 <= k <= bs@.len(),
            ids == building_ids(building_models(bs@)),
            forall|i: int| 0 <= i < k ==> ids[i] != id@,
        decreases bs@.len() - k,
    {
        if bs[k].id == *id {
            assert(ids[k as int] == id@);
            return true;
        }
        k = k + 1;
    }
    false
}

/// The first unit with an id, if any.
fn first_unit_with<'a>(units: &'a Vec<Unit>, id: &String) -> (r: Option<&'a Unit>)
    ensures
        first_index(unit_ids(unit_models(units@)), id@) < 0 ==> r is None,
        first_index(unit_ids(unit_models(units@)), id@) >= 0 ==> (r matches Some(u)
            && u@ == unit_models(units@)[first_index(unit_ids(unit_models(units@)), id@)]),
{
    let ghost ids = unit_ids(unit_models(units@));
    proof { lemma_first_index_props(ids, id@); }
    let mut k: usize = 0;
    while k < units.len()
        invariant
            0 <= k <= units@.len(),
            ids == unit_ids(unit_models(units@)),
            forall|i: int| 0 <= i < k ==> ids[i] != id@,
        decreases units@.len() - k,
    {
        if units[k].id == *id {
            proof { crate::seqs::lemma_first_index_is(ids, id@, k as int); }
            return Some(&units[k]);
        }
        k = k + 1;
    }
    proof { crate::seqs::lemma_first_index_absent(ids, id@); }
    None
}

fn unit_view_of(u: &Unit) -> (v: UnitView)
    ensures
        v@ == u@,
{
    UnitView {
        id: u.id.clone(),
        player_slot: u.player_slot,
        unit_type: u.unit_type,
        x: u.x,
        y: u.y,
        hp: u.hp,
        max_hp: u.max_hp,
        status: u.status,
        path: clone_positions(&u.path),
        target_id: clone_opt_str(&u.target_id),
        cargo: u.cargo,
    }
}

fn building_view_of(b: &Building, energy: Option<i32>) -> (v: BuildingView)
    ensures
        v@ == building_view(b@, energy),
{
    BuildingView {
        id: b.id.clone(),
        player_slot: b.player_slot,
        building_type: b.building_type,
        x: b.x,
        y: b.y,
        hp: b.hp,
        max_hp: b.max_hp,
        energy,
    }
}

pub fn clone_grid<T: Copy>(g: &Vec<Vec<T>>) -> (r: Vec<Vec<T>>)
    ensures
        grid_view(r@) == grid_view(g@),
{
    let mut r: Vec<Vec<T>> = Vec::new();
    let mut y: usize = 0;
    while y < g.len()
        invariant
            0 <= y <= g@.len(),
            r@.len() == y,
            forall|k: int| 0 <= k < y ==> (#[trigger] r@[k])@ == g@[k]@,
        decreases g@.len() - y,
    {
        let mut row: Vec<T> = Vec::new();
        let mut x: usize = 0;
        while x < g[y].len()
            invariant
                0 <= y < g@.len(),
                0 <= x <= g@[y as int]@.len(),
                row@.len() == x,
                forall|k: int| 0 <= k < x ==> #[trigger] row@[k] == g@[y as int]@[k],
            decreases g@[y as int]@.len() - x,
        {
            row.push(g[y][x]);
            x = x + 1;
        }
        assert(row@ =~= g@[y as int]@);
        r.push(row);
        y = y + 1;
    }
    assert(grid_view(r@) =~= grid_view(g@));
    r
}

impl GameState {
    /// The whole match as the renderer draws it: every unit, every building with
    /// its owner's energy, every resource node, and the first player's fog.
    pub fn full_snapshot(&self) -> (v: GameStateView)
        ensures
            shows(&v, self),
    {
        let mut units: Vec<UnitView> = Vec::new();
        let mut i: usize = 0;
        while i < self.units.len()
            invariant
                0 <= i <= self.units@.len(),
                units@.len() == i,
                forall|k: int| 0 <= k < i ==> (#[trigger] units@[k])@ == self.units@[k]@,
            decreases self.units@.len() - i,
        {
            units.push(unit_view_of(&self.units[i]));
            i = i + 1;
        }
        assert(unit_view_models(units@) =~= unit_models(self.units@));

        let ghost ps = player_models(self.players@);
        let mut buildings: Vec<BuildingView> = Vec::new();
        let mut j: usize = 0;
        while j < self.buildings.len()
            invariant
                0 <= j <= self.buildings@.len(),
                ps == player_models(self.players@),
                buildings@.len() == j,
                forall|k: int| 0 <= k < j ==> (#[trigger] buildings@[k])@
                    == building_view(self.buildings@[k]@, slot_energy(ps, self.buildings@[k].player_slot)),
            decreases self.buildings@.len() - j,
        {
            let slot = self.buildings[j].player_slot;
            let found = find_player(&self.players, slot);
            proof { lemma_first_index_props(player_slots(ps), slot); }
            let energy = match found {
                Some(p) => Some(self.players[p].energy),
                None => None,
            };
            assert(energy == slot_energy(ps, slot));
            buildings.push(building_view_of(&self.buildings[j], energy));
            j = j + 1;
        }
        assert(building_view_models(buildings@) =~= snapshot_buildings(building_models(self.buildings@), ps));

        let mut resources: Vec<ResourceView> = Vec::new();
        let mut r: usize = 0;
        while r < self.resource_nodes.len()
            invariant
                0 <= r <= self.resource_nodes@.len(),
                resources@.len() == r,
                forall|k: int| 0 <= k < r ==> (#[trigger] resources@[k])@ == self.resource_nodes@[k]@,
            decreases self.resource_nodes@.len() - r,
        {
            let node = &self.resource_nodes[r];
            resources.push(ResourceView { id: node.id.clone(), x: node.x, y: node.y, remaining: node.remaining });
            r = r + 1;
        }
        assert(resource_view_models(resources@) =~= resource_models(self.resource_nodes@));

        let visibility = if self.visibility.len() == 0 {
            let empty: Vec<Vec<VisibilityState>> = Vec::new();
            assert(grid_view(empty@) =~= Seq::<Seq<VisibilityState>>::empty());
            empty
        } else {
            clone_grid(&self.visibility[0])
        };

        GameStateView {
            tick: self.tick,
            map_width: self.map_width,
            map_height: self.map_height,
            terrain: clone_grid(&self.terrain),
            units,
            buildings,
            resources,
            combat_events: Vec::new(),
            visibility,
            msg_type: None,
            players: None,
        }
    }
}

fn sees_cell(g: &Vec<Vec<VisibilityState>>, x: i32, y: i32) -> (b: bool)
    ensures
        b == sees(grid_view(g@), x, y),
{
    if y < 0 || (y as usize) >= g.len() {
        return false;
    }
    let row = &g[y as usize];
    if x < 0 || (x as usize) >= row.len() {
        return false;
    }
    row[x as usize] == VisibilityState::Visible
}

impl GameState {
    /// The match as the player in `slot` may see it: what lies under its fog of
    /// war is left out, and only its own energy is shown.
    pub fn visible_snapshot(&self, slot: u8) -> (v: GameStateView)
        ensures
            shows_to(&v, self, slot),
    {
        let ghost ps = player_models(self.players@);
        let found = find_player(&self.players, slot);
        proof { lemma_first_index_props(player_slots(ps), slot); }
        let own_energy: Option<i32> = match found {
            Some(p) => Some(self.players[p].energy),
            None => None,
        };
        let empty: Vec<Vec<VisibilityState>> = Vec::new();
        let grid: &Vec<Vec<VisibilityState>> = match found {
            Some(p) => if p < self.visibility.len() { &self.visibility[p] } else { &empty },
            None => &empty,
        };
        let ghost g = grid_view(grid@);
        assert(g =~= player_grid(self, slot));

        let ghost up = unit_seen_by(g, slot);
        let ghost ua = unit_models(self.units@);
        let mut units: Vec<UnitView> = Vec::new();
        let mut i: usize = 0;
        while i < self.units.len()
            invariant
                0 <= i <= self.units@.len(),
                g == grid_view(grid@),
                up == unit_seen_by(g, slot),
                ua == unit_models(self.units@),
                unit_view_models(units@) == ua.take(i as int).filter(up),
            decreases self.units@.len() - i,
        {
            let ghost before = units@;
            proof {
                assert(ua.take(i + 1) =~= ua.take(i as int).push(ua[i as int]));
                ua.take(i as int).lemma_filter_push(ua[i as int], up);
            }
            let u = &self.units[i];
            if u.player_slot == slot || sees_cell(grid, u.x, u.y) {
                units.push(unit_view_of(u));
                assert(unit_view_models(units@) =~= unit_view_models(before).push(ua[i as int]));
            }
            i = i + 1;
        }
        assert(ua.take(ua.len() as int) =~= ua);

        let ghost bp = building_seen_by(g, slot);
        let ghost bf = building_shown_to(ps, slot);
        let ghost ba = building_models(self.buildings@);
        let mut buildings: Vec<BuildingView> = Vec::new();
        let mut j: usize = 0;
        while j < self.buildings.len()
            invariant
                0 <= j <= self.buildings@.len(),
                g == grid_view(grid@),
                bp == building_seen_by(g, slot),
                bf == building_shown_to(ps, slot),
                ba == building_models(self.buildings@),
                own_energy == slot_energy(ps, slot),
                building_view_models(buildings@) == ba.take(j as int).filter(bp).map_values(bf),
            decreases self.buildings@.len() - j,
        {
            let ghost before = buildings@;
            proof { lemma_filter_map_step(ba, j as int, bp, bf); }
            let b = &self.buildings[j];
            if b.player_slot == slot || sees_cell(grid, b.x, b.y) {
                let energy = if b.player_slot == slot { own_energy } else { None };
                buildings.push(building_view_of(b, energy));
                assert(building_view_models(buildings@) =~= building_view_models(before).push(bf(ba[j as int])));
            }
            j = j + 1;
        }
        assert(ba.take(ba.len() as int) =~= ba);

        let ghost rp = resource_seen_in(g);
        let ghost ra = resource_models(self.resource_nodes@);
        let mut resources: Vec<ResourceView> = Vec::new();
        let mut r: usize = 0;
        while r < self.resource_nodes.len()
            invariant
                0 <= r <= self.resource_nodes@.len(),
                g == grid_view(grid@),
                rp == resource_seen_in(g),
                ra == resource_models(self.resource_nodes@),
                resource_view_models(resources@) == ra.take(r as int).filter(rp),
            decreases self.resource_nodes@.len() - r,
        {
            let ghost before = resources@;
            proof {
                assert(ra.take(r + 1) =~= ra.take(r as int).push(ra[r as int]));
                ra.take(r as int).lemma_filter_push(ra[r as int], rp);
            }
            let node = &self.resource_nodes[r];
            if sees_cell(grid, node.x, node.y) {
                resources.push(ResourceView { id: node.id.clone(), x: node.x, y: node.y, remaining: node.remaining });
                assert(resource_view_models(resources@) =~= resource_view_models(before).push(ra[r as int]));
            }
            r = r + 1;
        }
        assert(ra.take(ra.len() as int) =~= ra);

        GameStateView {
            tick: self.tick,
            map_width: self.map_width,
            map_height: self.map_height,
            terrain: Vec::new(),
            units,
            buildings,
            resources,
            combat_events: Vec::new(),
            visibility: clone_grid(grid),
            msg_type: None,
            players: None,
        }
    }
}

fn moved_units(snap: &Vec<Unit>, units: &Vec<Unit>) -> (r: Vec<UnitMove>)
    ensures
        unit_move_models(r@) == moves_between(unit_models(snap@), unit_models(units@)),
{
    let ghost sm = unit_models(snap@);
    let ghost all = unit_models(units@);
    let ghost pred = |u: UnitModel| unit_changed(sm, u);
    let mut r: Vec<UnitMove> = Vec::new();
    let mut i: usize = 0;
    while i < units.len()
        invariant
            0 <= i <= units@.len(),
            sm == unit_models(snap@),
            all == unit_models(units@),
            pred == (|u: UnitModel| unit_changed(sm, u)),
            unit_move_models(r@) == all.take(i as int).filter(pred).map_values(|u: UnitModel| move_of(u)),
        decreases units@.len() - i,
    {
        let ghost before = r@;
        let u = &units[i];
        proof {
            assert(all.take(i + 1) =~= all.take(i as int).push(all[i as int]));
            all.take(i as int).lemma_filter_push(all[i as int], pred);
            assert(u@ == all[i as int]);
        }
        let old_unit = first_unit_with(snap, &u.id);
        let changed = match old_unit {
            Some(o) => o.x != u.x || o.y != u.y || o.status != u.status,
            None => false,
        };
        assert(changed == pred(all[i as int]));
        if changed {
            r.push(UnitMove { id: u.id.clone(), x: u.x, y: u.y, status: u.status });
            assert(unit_move_models(r@) =~= unit_move_models(before).push(move_of(all[i as int])));
        }
        assert(unit_move_models(r@) =~= all.take(i + 1).filter(pred).map_values(|u: UnitModel| move_of(u)));
        i = i + 1;
    }
    assert(all.take(all.len() as int) =~= all);
    r
}

fn spawned_units(snap: &Vec<Unit>, units: &Vec<Unit>) -> (r: Vec<UnitView>)
    ensures
        unit_view_models(r@) == spawned_between(unit_models(snap@), unit_models(units@)),
{
    let ghost sm = unit_models(snap@);
    let ghost all = unit_models(units@);
    let ghost pred = |u: UnitModel| !unit_ids(sm).contains(u.id);
    let mut r: Vec<UnitView> = Vec::new();
    let mut i: usize = 0;
    while i < units.len()
        invariant
            0 <= i <= units@.len(),
            sm == unit_models(snap@),
            all == unit_models(units@),
            pred == (|u: UnitModel| !unit_ids(sm).contains(u.id)),
            unit_view_models(r@) == all.take(i as int).filter(pred),
        decreases units@.len() - i,
    {
        let ghost before = r@;
        proof {
            assert(all.take(i + 1) =~= all.take(i as int).push(all[i as int]));
            all.take(i as int).lemma_filter_push(all[i as int], pred);
        }
        if !has_unit_id(snap, &units[i].id) {
            r.push(unit_view_of(&units[i]));
            assert(unit_view_models(r@) =~= unit_view_models(before).push(all[i as int]));
        }
        i = i + 1;
    }
    assert(all.take(all.len() as int) =~= all);
    r
}

fn killed_units(snap: &Vec<Unit>, units: &Vec<Unit>) -> (r: Vec<String>)
    ensures
        str_views(r@) == killed_between(unit_models(snap@), unit_models(units@)),
{
    let ghost um = unit_models(units@);
    let ghost all = unit_models(snap@);
    let ghost pred = |u: UnitModel| !unit_ids(um).contains(u.id);
    let mut r: Vec<String> = Vec::new();
    let mut i: usize = 0;
    while i < snap.len()
        invariant
            0 <= i <= snap@.len(),
            um == unit_models(units@),
            all == unit_models(snap@),
            pred == (|u: UnitModel| !unit_ids(um).contains(u.id)),
            str_views(r@) == unit_ids(all.take(i as int).filter(pred)),
        decreases snap@.len() - i,
    {
        let ghost before = r@;
        proof {
            assert(all.take(i + 1) =~= all.take(i as int).push(all[i as int]));
            all.take(i as int).lemma_filter_push(all[i as int], pred);
        }
        if !has_unit_id(units, &snap[i].id) {
            r.push(snap[i].id.clone());
            assert(str_views(r@) =~= str_views(before).push(all[i as int].id));
        }
        assert(str_views(r@) =~= unit_ids(all.take(i + 1).filter(pred)));
        i = i + 1;
    }
    assert(all.take(all.len() as int) =~= all);
    r
}

fn built_buildings(snap: &Vec<Building>, bs: &Vec<Building>) -> (r: Vec<BuildingView>)
    ensures
        building_view_models(r@) == built_between(building_models(snap@), building_models(bs@)),
{
    let ghost sm = building_models(snap@);
    let ghost all = building_models(bs@);
    let ghost pred = |b: BuildingModel| !building_ids(sm).contains(b.id);
    let mut r: Vec<BuildingView> = Vec::new();
    let mut i: usize = 0;
    while i < bs.len()
        invariant
            0 <= i <= bs@.len(),
            sm == building_models(snap@),
            all == building_models(bs@),
            pred == (|b: BuildingModel| !building_ids(sm).contains(b.id)),
            building_view_models(r@) == all.take(i as int).filter(pred).map_values(|b: BuildingModel| building_view(b, None)),
        decreases bs@.len() - i,
    {
        let ghost before = r@;
        proof {
            assert(all.take(i + 1) =~= all.take(i as int).push(all[i as int]));
            all.take(i as int).lemma_filter_push(all[i as int], pred);
        }
        if !has_building_id(snap, &bs[i].id) {
            r.push(building_view_of(&bs[i], None));
            assert(building_view_models(r@) =~= building_view_models(before).push(building_view(all[i as int], None)));
        }
        assert(building_view_models(r@) =~= all.take(i + 1).filter(pred).map_values(|b: BuildingModel| building_view(b, None)));
        i = i + 1;
    }
    assert(all.take(all.len() as int) =~= all);
    r
}

fn destroyed_buildings(snap: &Vec<Building>, bs: &Vec<Building>) -> (r: Vec<String>)
    ensures
        str_views(r@) == destroyed_between(building_models(snap@), building_models(bs@)),
{
    let ghost bm = building_models(bs@);
    let ghost all = building_models(snap@);
    let ghost pred = |b: BuildingModel| !building_ids(bm).contains(b.id);
    let mut r: Vec<String> = Vec::new();
    let mut i: usize = 0;
    while i < snap.len()
        invariant
            0 <= i <= snap@.len(),
            bm == building_models(bs@),
            all == building_models(snap@),
            pred == (|b: BuildingModel| !building_ids(bm).contains(b.id)),
            str_views(r@) == building_ids(all.take(i as int).filter(pred)),
        decreases snap@.len() - i,
    {
        let ghost before = r@;
        proof {
            assert(all.take(i + 1) =~= all.take(i as int).push(all[i as int]));
            all.take(i as int).lemma_filter_push(all[i as int], pred);
        }
        if !has_building_id(bs, &snap[i].id) {
            r.push(snap[i].id.clone());
            assert(str_views(r@) =~= str_views(before).push(all[i as int].id));
        }
        assert(str_views(r@) =~= building_ids(all.take(i + 1).filter(pred)));
        i = i + 1;
    }
    assert(all.take(all.len() as int) =~= all);
    r
}

impl GameState {
    /// What changed since the snapshot taken at the start of the tick.
    pub fn compute_diff(&self) -> (d: StateDiff)
        ensures
            d.tick == self.tick,
            unit_move_models(d.units_moved@) == moves_between(unit_models(self.snapshot_units@), unit_models(self.units@)),
            unit_view_models(d.units_spawned@) == spawned_between(unit_models(self.snapshot_units@), unit_models(self.units@)),
            str_views(d.units_killed@) == killed_between(unit_models(self.snapshot_units@), unit_models(self.units@)),
            building_view_models(d.buildings_built@) == built_between(building_models(self.snapshot_buildings@), building_models(self.buildings@)),
            str_views(d.buildings_destroyed@) == destroyed_between(building_models(self.snapshot_buildings@), building_models(self.buildings@)),
            d.combat_events@.len() == 0,
            d.resources_changed@ == energy_report(player_models(self.players@)),
            d.visibility_updates@.len() == 0,
            d.msg_type is None,
    {
        let mut resources_changed: Vec<(u8, i32)> = Vec::new();
        let mut p: usize = 0;
        while p < self.players.len()
            invariant
                0 <= p <= self.players@.len(),
                resources_changed@.len() == p,
                forall|k: int| 0 <= k < p ==> #[trigger] resources_changed@[k] == (self.players@[k].slot, self.players@[k].energy),
            decreases self.players@.len() - p,
        {
            resources_changed.push((self.players[p].slot, self.players[p].energy));
            p = p + 1;
        }
        assert(resources_changed@ =~= energy_report(player_models(self.players@)));
        StateDiff {
            tick: self.tick,
            units_moved: moved_units(&self.snapshot_units, &self.units),
            units_spawned: spawned_units(&self.snapshot_units, &self.units),
            units_killed: killed_units(&self.snapshot_units, &self.units),
            buildings_built: built_buildings(&self.snapshot_buildings, &self.buildings),
            buildings_destroyed: destroyed_buildings(&self.snapshot_buildings, &self.buildings),
            combat_events: Vec::new(),
            resources_changed,
            visibility_updates: Vec::new(),
            msg_type: None,
        }
    }
}

} // verus!
