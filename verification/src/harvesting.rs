//! Harvesting: workers take energy from resource nodes, carry it home and deposit it.

use vstd::prelude::*;

use crate::engine::{
    BuildingModel, GameState, PlayerModel, World, base_index, building_ok, building_pos, cargos,
    economy, energies, find_player, find_resource, find_unit, lemma_cargos_update, lemma_energies_update,
    lemma_remainders_update, lemma_unblocked_coord_ok, player_slots, player_with, remainders, resource_ok,
    resource_ids, resource_with, same_frame, unit_ids, unit_models, unit_ok, unit_pos, unit_with, world,
    world_ok,
};
use crate::hex::{Position, coord_ok, hex_dist, hex_distance};
use crate::pathfinding::{find_path, lemma_path_found_frame, path_found};
use crate::seqs::{
    lemma_first_index_le, lemma_first_index_props, lemma_first_where_props, lemma_sum_element_le, lemma_sum_nonneg,
};
use crate::state::{BuildingType, HARVEST_AMOUNT, ResourceModel, UnitModel, UnitStatus, UnitType};

verus! {

pub open spec fn is_harvester(u: UnitModel) -> bool {
    u.unit_type == UnitType::Worker && (u.status == UnitStatus::Harvesting || u.status == UnitStatus::Returning)
}

/// The amount one harvest takes from a node with `remaining` energy.
pub open spec fn harvest_amount(remaining: i32) -> i32 {
    if HARVEST_AMOUNT < remaining { HARVEST_AMOUNT } else { remaining }
}

/// Whether the harvester takes energy from its target this tick.
pub open spec fn takes_energy(w: World, a: UnitModel) -> bool {
    &&& a.status == UnitStatus::Harvesting
    &&& a.target_id is Some
    &&& resource_with(w, a.target_id.unwrap()) >= 0
    &&& w.resources[resource_with(w, a.target_id.unwrap())].remaining > 0
}

/// Whether a returning harvester is home: its player's base is within one hex.
pub open spec fn at_home(w: World, a: UnitModel) -> bool {
    &&& a.status == UnitStatus::Returning
    &&& base_index(w.buildings, a.player_slot) >= 0
    &&& hex_dist(unit_pos(a), building_pos(w.buildings[base_index(w.buildings, a.player_slot)])) <= 1
}

/// The walk a loaded worker asks for: from where it harvested to its base.
pub open spec fn return_request(w: World, a: UnitModel) -> Option<(Position, Position)> {
    if is_harvester(a) && takes_energy(w, a) && base_index(w.buildings, a.player_slot) >= 0 {
        Some((unit_pos(a), building_pos(w.buildings[base_index(w.buildings, a.player_slot)])))
    } else {
        None
    }
}

/// One harvester's turn. `a` is the harvester as the tick began; the changes go
/// to the first unit carrying its id.
pub open spec fn harvest_step(w: World, a: UnitModel, path: Seq<Position>) -> World {
    let j = unit_with(w, a.id);
    if !is_harvester(a) {
        w
    } else if a.status == UnitStatus::Harvesting {
        if !takes_energy(w, a) {
            w
        } else {
            let r = resource_with(w, a.target_id.unwrap());
            let h = harvest_amount(w.resources[r].remaining);
            let u = w.units[j];
            let new_path = if base_index(w.buildings, a.player_slot) >= 0 { path } else { u.path };
            World {
                resources: w.resources.update(r, ResourceModel { remaining: (w.resources[r].remaining - h) as i32, ..w.resources[r] }),
                units: w.units.update(j, UnitModel { cargo: (u.cargo + h) as i32, status: UnitStatus::Returning, path: new_path, ..u }),
                ..w
            }
        }
    } else if !at_home(w, a) {
        w
    } else {
        let u = w.units[j];
        let p = player_with(w, a.player_slot);
        World {
            players: if p >= 0 {
                w.players.update(p, PlayerModel { energy: (w.players[p].energy + u.cargo) as i32, ..w.players[p] })
            } else {
                w.players
            },
            units: w.units.update(j, UnitModel { cargo: 0, status: UnitStatus::Idle, target_id: None, ..u }),
            ..w
        }
    }
}

/// The world after the first `n` units (as the tick began) took their harvesting turn.
pub open spec fn harvest_upto(w0: World, n: int, paths: Seq<Seq<Position>>) -> World
    decreases n,
{
    if n <= 0 {
        w0
    } else {
        harvest_step(harvest_upto(w0, n - 1, paths), w0.units[n - 1], paths[n - 1])
    }
}

/// Every walk home follows a path the pathfinder gives.
pub open spec fn return_paths_ok(s: &GameState, w0: World, paths: Seq<Seq<Position>>) -> bool {
    &&& paths.len() == w0.units.len()
    &&& forall|i: int| 0 <= i < w0.units.len() ==>
        match return_request(harvest_upto(w0, i, paths), #[trigger] w0.units[i]) {
            Some((a, b)) => path_found(s, a, b, paths[i]),
            None => true,
        }
}

proof fn lemma_harvest_frame(w0: World, n: int, paths: Seq<Seq<Position>>)
    requires
        0 <= n <= w0.units.len(),
    ensures
        harvest_upto(w0, n, paths).units.len() == w0.units.len(),
        harvest_upto(w0, n, paths).resources.len() == w0.resources.len(),
        harvest_upto(w0, n, paths).players.len() == w0.players.len(),
        harvest_upto(w0, n, paths).buildings == w0.buildings,
        unit_ids(harvest_upto(w0, n, paths).units) == unit_ids(w0.units),
        resource_ids(harvest_upto(w0, n, paths).resources) == resource_ids(w0.resources),
        player_slots(harvest_upto(w0, n, paths).players) == player_slots(w0.players),
        forall|k: int| 0 <= k < w0.units.len() ==> {
            let u = #[trigger] harvest_upto(w0, n, paths).units[k];
            &&& u.x == w0.units[k].x
            &&& u.y == w0.units[k].y
            &&& u.hp == w0.units[k].hp
            &&& u.player_slot == w0.units[k].player_slot
            &&& u.unit_type == w0.units[k].unit_type
        },
        forall|k: int| n <= k < w0.units.len() ==> #[trigger] harvest_upto(w0, n, paths).units[k] == w0.units[k],
    decreases n,
{
    if n > 0 {
        lemma_harvest_frame(w0, n - 1, paths);
        let w = harvest_upto(w0, n - 1, paths);
        let a = w0.units[n - 1];
        assert(unit_ids(w0.units)[n - 1] == a.id);
        lemma_first_index_le(unit_ids(w0.units), a.id, n - 1);
        let w2 = harvest_upto(w0, n, paths);
        if a.target_id is Some {
            lemma_first_index_props(resource_ids(w.resources), a.target_id.unwrap());
        }
        lemma_first_index_props(player_slots(w.players), a.player_slot);
        assert(unit_ids(w2.units) =~= unit_ids(w0.units));
        assert(resource_ids(w2.resources) =~= resource_ids(w0.resources));
        assert(player_slots(w2.players) =~= player_slots(w0.players));
    }
}

proof fn lemma_harvest_step_ok(w: World, a: UnitModel, path: Seq<Position>)
    requires
        world_ok(w),
        unit_with(w, a.id) >= 0,
        forall|i: int| 0 <= i < path.len() ==> coord_ok(#[trigger] path[i]),
    ensures
        world_ok(harvest_step(w, a, path)),
        harvest_step(w, a, path).buildings == w.buildings,
{
    lemma_first_index_props(unit_ids(w.units), a.id);
    let j = unit_with(w, a.id);
    let w2 = harvest_step(w, a, path);
    assert(unit_ok(w.units[j]));
    assert forall|i: int| 0 <= i < cargos(w.units).len() implies 0 <= #[trigger] cargos(w.units)[i] by {
        assert(unit_ok(w.units[i]));
    }
    assert forall|i: int| 0 <= i < energies(w.players).len() implies 0 <= #[trigger] energies(w.players)[i] by {}
    assert forall|i: int| 0 <= i < remainders(w.resources).len() implies 0 <= #[trigger] remainders(w.resources)[i] by {
        assert(resource_ok(w.resources[i]));
    }
    lemma_sum_nonneg(cargos(w.units));
    lemma_sum_nonneg(energies(w.players));
    lemma_sum_nonneg(remainders(w.resources));
    lemma_sum_element_le(cargos(w.units), j);
    if is_harvester(a) {
        if a.status == UnitStatus::Harvesting {
            if takes_energy(w, a) {
                let r = resource_with(w, a.target_id.unwrap());
                lemma_first_index_props(resource_ids(w.resources), a.target_id.unwrap());
                assert(resource_ok(w.resources[r]));
                lemma_sum_element_le(remainders(w.resources), r);
                lemma_remainders_update(w.resources, r, w2.resources[r]);
                lemma_cargos_update(w.units, j, w2.units[j]);
                assert forall|k: int| 0 <= k < w2.units.len() implies unit_ok(#[trigger] w2.units[k]) by {
                    if k != j {
                        assert(w2.units[k] == w.units[k]);
                    }
                }
                assert forall|k: int| 0 <= k < w2.resources.len() implies resource_ok(#[trigger] w2.resources[k]) by {
                    if k != r {
                        assert(w2.resources[k] == w.resources[k]);
                    }
                }
            }
        } else if at_home(w, a) {
            let p = player_with(w, a.player_slot);
            lemma_first_index_props(player_slots(w.players), a.player_slot);
            lemma_cargos_update(w.units, j, w2.units[j]);
            if p >= 0 {
                lemma_sum_element_le(energies(w.players), p);
                lemma_energies_update(w.players, p, w2.players[p]);
                assert forall|k: int, m: int| 0 <= k < m < w2.players.len() implies w2.players[k].slot != w2.players[m].slot by {
                    assert(w2.players[k].slot == w.players[k].slot);
                    assert(w2.players[m].slot == w.players[m].slot);
                }
            }
            assert forall|k: int| 0 <= k < w2.units.len() implies unit_ok(#[trigger] w2.units[k]) by {
                if k != j {
                    assert(w2.units[k] == w.units[k]);
                }
            }
        }
    }
    assert(player_slots(w2.players) =~= player_slots(w.players));
    assert forall|k: int| 0 <= k < w2.units.len() implies player_slots(w2.players).contains((#[trigger] w2.units[k]).player_slot) by {
        if k != j {
            assert(w2.units[k] == w.units[k]);
        }
    }
}


proof fn lemma_harvest_prefix(w0: World, n: int, p1: Seq<Seq<Position>>, p2: Seq<Seq<Position>>)
    requires
        0 <= n <= p1.len(),
        n <= p2.len(),
        forall|k: int| 0 <= k < n ==> p1[k] == p2[k],
    ensures
        harvest_upto(w0, n, p1) == harvest_upto(w0, n, p2),
    decreases n,
{
    if n > 0 {
        lemma_harvest_prefix(w0, n - 1, p1, p2);
    }
}

fn harvest_turn(state: &mut GameState, i: usize) -> (path_used: Ghost<Seq<Position>>)
    requires
        old(state).wf(),
        i < old(state).units@.len(),
    ensures
        world(final(state)) == harvest_step(world(old(state)), old(state).units@[i as int]@, path_used@),
        match return_request(world(old(state)), old(state).units@[i as int]@) {
            Some((a, b)) => path_found(old(state), a, b, path_used@),
            None => true,
        },
        same_frame(final(state), old(state)),
        final(state).buildings == old(state).buildings,
        final(state).wf(),
{
    let ghost wi = world(state);
    let ghost a = wi.units[i as int];
    proof {
        assert(unit_ids(wi.units)[i as int] == a.id);
        lemma_first_index_le(unit_ids(wi.units), a.id, i as int);
        lemma_first_index_props(unit_ids(wi.units), a.id);
        assert(unit_ok(a));
        assert forall|k: int| 0 <= k < cargos(wi.units).len() implies 0 <= #[trigger] cargos(wi.units)[k] by {
            assert(unit_ok(wi.units[k]));
        }
        assert forall|k: int| 0 <= k < energies(wi.players).len() implies 0 <= #[trigger] energies(wi.players)[k] by {}
        assert forall|k: int| 0 <= k < remainders(wi.resources).len() implies 0 <= #[trigger] remainders(wi.resources)[k] by {
            assert(resource_ok(wi.resources[k]));
        }
        lemma_sum_nonneg(cargos(wi.units));
        lemma_sum_nonneg(energies(wi.players));
        lemma_sum_nonneg(remainders(wi.resources));
    }
    let ghost mut path_used: Seq<Position> = Seq::empty();
    let is_worker = state.units[i].unit_type == UnitType::Worker;
    let status = state.units[i].status;
    if is_worker && status == UnitStatus::Harvesting {
        let target = match &state.units[i].target_id {
            Some(t) => Some(t.clone()),
            None => None,
        };
        match target {
            Some(rid) => {
                proof { lemma_first_index_props(resource_ids(wi.resources), rid@); }
                match find_resource(&state.resource_nodes, &rid) {
                    Some(r) => {
                        if state.resource_nodes[r].remaining > 0 {
                            let aid = state.units[i].id.clone();
                            let slot = state.units[i].player_slot;
                            let upos = Position::new(state.units[i].x, state.units[i].y);
                            let rem = state.resource_nodes[r].remaining;
                            let h: i32 = if HARVEST_AMOUNT < rem { HARVEST_AMOUNT } else { rem };
                            proof {
                                lemma_sum_element_le(cargos(wi.units), unit_with(wi, a.id));
                                lemma_sum_element_le(remainders(wi.resources), r as int);
                            }
                            state.resource_nodes[r].remaining = rem - h;
                            let j = match find_unit(&state.units, &aid) {
                                Some(j) => j,
                                None => {
                                    assert(false);
                                    return Ghost(Seq::empty());
                                },
                            };
                            state.units[j].cargo = state.units[j].cargo + h;
                            state.units[j].status = UnitStatus::Returning;
                            let base = match state.get_player_base(slot) {
                                Some(b) => Some(Position::new(b.x, b.y)),
                                None => None,
                            };
                            match base {
                                Some(bpos) => {
                                    let path = find_path(state, upos, bpos);
                                    proof {
                                        lemma_path_found_frame(state, old(state), upos, bpos, path@);
                                        assert forall|e: int| 0 <= e < path@.len() implies coord_ok(#[trigger] path@[e]) by {
                                            lemma_unblocked_coord_ok(state, path@[e]);
                                        }
                                        path_used = path@;
                                    }
                                    state.units[j].path = path;
                                },
                                None => {},
                            }
                            proof {
                                let w2 = harvest_step(wi, a, path_used);
                                assert(unit_models(state.units@) =~= w2.units);
                                assert(crate::engine::resource_models(state.resource_nodes@) =~= w2.resources);
                                assert(world(state) == w2);
                            }
                        }
                    },
                    None => {},
                }
            },
            None => {},
        }
    } else if is_worker && status == UnitStatus::Returning {
        let slot = state.units[i].player_slot;
        let upos = Position::new(state.units[i].x, state.units[i].y);
        let base = match state.get_player_base(slot) {
            Some(b) => Some(Position::new(b.x, b.y)),
            None => None,
        };
        match base {
            Some(bpos) => {
                proof {
                    crate::seqs::lemma_first_where_props(wi.buildings,
                        |b: BuildingModel| b.player_slot == slot && b.building_type == BuildingType::Base);
                    assert(building_ok(wi.buildings[base_index(wi.buildings, slot)]));
                }
                let dist = hex_distance(upos, bpos);
                if dist <= 1 {
                    let aid = state.units[i].id.clone();
                    let j = match find_unit(&state.units, &aid) {
                        Some(j) => j,
                        None => {
                            assert(false);
                            return Ghost(Seq::empty());
                        },
                    };
                    let cargo = state.units[j].cargo;
                    proof {
                        lemma_first_index_props(player_slots(wi.players), slot);
                        lemma_sum_element_le(cargos(wi.units), j as int);
                        let p = player_with(wi, slot);
                        if p >= 0 {
                            lemma_sum_element_le(energies(wi.players), p);
                        }
                    }
                    match find_player(&state.players, slot) {
                        Some(p) => {
                            state.players[p].energy = state.players[p].energy + cargo;
                        },
                        None => {},
                    }
                    state.units[j].cargo = 0;
                    state.units[j].status = UnitStatus::Idle;
                    state.units[j].target_id = None;
                    proof {
                        let w2 = harvest_step(wi, a, path_used);
                        assert(unit_models(state.units@) =~= w2.units);
                        assert(crate::engine::player_models(state.players@) =~= w2.players);
                        assert(world(state) == w2);
                    }
                }
            },
            None => {},
        }
    }
    proof {
        lemma_harvest_step_ok(wi, a, path_used);
        assert(world(state) == harvest_step(wi, a, path_used));
    }
    Ghost(path_used)
}

/// Workers take energy from their resource nodes and bring it home. No energy
/// is made or lost: what players hold, workers carry and nodes keep adds up to
/// the same before and after.
pub fn resolve_harvesting(state: &mut GameState)
    requires
        old(state).wf(),
    ensures
        exists|paths: Seq<Seq<Position>>|
            return_paths_ok(old(state), world(old(state)), paths)
            && world(final(state)) == harvest_upto(world(old(state)), old(state).units@.len() as int, paths),
        same_frame(final(state), old(state)),
        final(state).buildings == old(state).buildings,
        final(state).wf(),
        economy(world(final(state))) == economy(world(old(state))),
{
    let ghost w0 = world(state);
    let n = state.units.len();
    let ghost mut paths: Seq<Seq<Position>> = Seq::empty();
    let mut i: usize = 0;
    while i < n
        invariant
            0 <= i <= n,
            n == w0.units.len(),
            w0 == world(old(state)),
            paths.len() == i,
            world(state) == harvest_upto(w0, i as int, paths),
            state.wf(),
            state.units@.len() == n,
            forall|k: int| 0 <= k < i ==>
                match return_request(harvest_upto(w0, k, paths), #[trigger] w0.units[k]) {
                    Some((a, b)) => path_found(old(state), a, b, paths[k]),
                    None => true,
                },
            same_frame(state, old(state)),
            state.buildings == old(state).buildings,
            economy(world(state)) == economy(w0),
        decreases n - i,
    {
        let ghost wi = world(state);
        let ghost si = *state;
        proof {
            lemma_harvest_frame(w0, i as int, paths);
            assert(wi.units[i as int] == w0.units[i as int]);
        }
        let path_used = harvest_turn(state, i);
        proof {
            {
                let a = w0.units[i as int];
                assert(unit_ids(wi.units)[i as int] == a.id);
                lemma_first_index_props(unit_ids(wi.units), a.id);
                assert(player_slots(wi.players).contains(wi.units[i as int].player_slot));
                lemma_first_index_props(player_slots(wi.players), a.player_slot);
                lemma_harvest_conserves_energy(wi, a, path_used@);
            }
            match return_request(wi, w0.units[i as int]) {
                Some((a, b)) => {
                    lemma_path_found_frame(&si, old(state), a, b, path_used@);
                },
                None => {},
            }
            let paths2 = paths.push(path_used@);
            lemma_harvest_prefix(w0, i as int, paths, paths2);
            assert forall|k: int| 0 <= k < i implies harvest_upto(w0, k, paths) == harvest_upto(w0, k, paths2) by {
                lemma_harvest_prefix(w0, k, paths, paths2);
            }
            paths = paths2;
            lemma_harvest_frame(w0, i + 1, paths);
        }
        i = i + 1;
    }
    assert(return_paths_ok(old(state), w0, paths));
}

/// Harvesting moves energy without making or losing any: what a node gives up
/// the worker carries, and what a worker brings home goes to its player.
pub proof fn lemma_harvest_conserves_energy(w: World, a: UnitModel, path: Seq<Position>)
    requires
        world_ok(w),
        unit_with(w, a.id) >= 0,
        a.unit_type == UnitType::Worker ==> player_with(w, a.player_slot) >= 0,
    ensures
        economy(harvest_step(w, a, path)) == economy(w),
{
    lemma_first_index_props(unit_ids(w.units), a.id);
    lemma_first_index_props(player_slots(w.players), a.player_slot);
    let j = unit_with(w, a.id);
    let w2 = harvest_step(w, a, path);
    assert(unit_ok(w.units[j]));
    assert forall|i: int| 0 <= i < cargos(w.units).len() implies 0 <= #[trigger] cargos(w.units)[i] by {
        assert(unit_ok(w.units[i]));
    }
    assert forall|i: int| 0 <= i < energies(w.players).len() implies 0 <= #[trigger] energies(w.players)[i] by {}
    assert forall|i: int| 0 <= i < remainders(w.resources).len() implies 0 <= #[trigger] remainders(w.resources)[i] by {
        assert(resource_ok(w.resources[i]));
    }
    lemma_sum_nonneg(cargos(w.units));
    lemma_sum_nonneg(energies(w.players));
    lemma_sum_nonneg(remainders(w.resources));
    lemma_sum_element_le(cargos(w.units), j);
    if is_harvester(a) {
        if a.status == UnitStatus::Harvesting {
            if takes_energy(w, a) {
                let r = resource_with(w, a.target_id.unwrap());
                lemma_first_index_props(resource_ids(w.resources), a.target_id.unwrap());
                assert(resource_ok(w.resources[r]));
                lemma_sum_element_le(remainders(w.resources), r);
                lemma_remainders_update(w.resources, r, w2.resources[r]);
                lemma_cargos_update(w.units, j, w2.units[j]);
            }
        } else if at_home(w, a) {
            let p = player_with(w, a.player_slot);
            lemma_cargos_update(w.units, j, w2.units[j]);
            lemma_sum_element_le(energies(w.players), p);
            lemma_energies_update(w.players, p, w2.players[p]);
        }
    }
}

/// A returning worker next to its base hands its whole cargo to its own
/// player: that player's energy grows by the cargo, every other player's
/// energy stays, and the worker is left empty and idle.
pub proof fn law_deposit_goes_to_owner(w: World, j: int, path: Seq<Position>)
    requires
        world_ok(w),
        0 <= j < w.units.len(),
        unit_with(w, w.units[j].id) == j,
        w.units[j].unit_type == UnitType::Worker,
        at_home(w, w.units[j]),
    ensures
        harvest_step(w, w.units[j], path).players.len() == w.players.len(),
        forall|k: int| 0 <= k < w.players.len() ==> {
            let q = #[trigger] harvest_step(w, w.units[j], path).players[k];
            &&& q.slot == w.players[k].slot
            &&& q.energy == w.players[k].energy + (if w.players[k].slot == w.units[j].player_slot { w.units[j].cargo as int } else { 0 })
        },
        harvest_step(w, w.units[j], path).units[j].cargo == 0,
        harvest_step(w, w.units[j], path).units[j].status == UnitStatus::Idle,
{
    let a = w.units[j];
    let w2 = harvest_step(w, a, path);
    assert(player_slots(w.players).contains(a.player_slot));
    lemma_first_index_props(player_slots(w.players), a.player_slot);
    let p = player_with(w, a.player_slot);
    assert(0 <= p < w.players.len() && w.players[p].slot == a.player_slot);
    assert(unit_ok(w.units[j]));
    assert forall|i: int| 0 <= i < cargos(w.units).len() implies 0 <= #[trigger] cargos(w.units)[i] by {
        assert(unit_ok(w.units[i]));
    }
    assert forall|i: int| 0 <= i < energies(w.players).len() implies 0 <= #[trigger] energies(w.players)[i] by {}
    assert forall|i: int| 0 <= i < remainders(w.resources).len() implies 0 <= #[trigger] remainders(w.resources)[i] by {
        assert(resource_ok(w.resources[i]));
    }
    lemma_sum_nonneg(cargos(w.units));
    lemma_sum_nonneg(energies(w.players));
    lemma_sum_nonneg(remainders(w.resources));
    lemma_sum_element_le(cargos(w.units), j);
    lemma_sum_element_le(energies(w.players), p);
    assert forall|k: int| 0 <= k < w.players.len() implies {
        let q = #[trigger] w2.players[k];
        &&& q.slot == w.players[k].slot
        &&& q.energy == w.players[k].energy + (if w.players[k].slot == a.player_slot { a.cargo as int } else { 0 })
    } by {
        if k != p && w.players[k].slot == a.player_slot {
            if k < p {
                assert(player_slots(w.players)[k] == a.player_slot);
            } else {
                assert(w.players[p].slot != w.players[k].slot);
            }
        }
    }
}

} // verus!
