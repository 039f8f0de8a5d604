//! The rules of the match: commands players issue, and the movement, combat and
//! harvesting that each tick resolves.

use vstd::prelude::*;

use crate::config::{Command, CommandModel, command_models};
use crate::engine::{
    GameState, PlayerModel, Unit, World, base_index, building_with, cargos, economy, find_building,
    find_owned_unit, find_player, find_resource, find_unit, lemma_cargos_push, lemma_cargos_update,
    lemma_energies_update, lemma_unblocked_coord_ok, owned_unit, player_models, player_slots, player_with,
    resource_pos, resource_with, same_frame, unit_models, unit_ok, unit_pos, unit_with, world, world_ok,
};
use crate::hex::{Position, coord_ok, hex_dist, hex_distance};
use crate::ids::{new_id, uuid_shaped};
use crate::pathfinding::{find_path, lemma_path_found_frame, path_found};
use crate::seqs::{lemma_first_index_props, lemma_first_where_props};
use crate::state::{
    BuildingType, Tile, UnitModel, UnitStatus, UnitType, passable_type, stats_of, tile_movement_cost_halves,
    unit_stats,
};

verus! {

/// Whether a player can spawn a unit: a player entry in the slot holds enough
/// energy, and the player still has a base.
pub open spec fn can_spawn(w: World, slot: u8, unit_type: UnitType) -> bool {
    &&& exists|i: int| 0 <= i < w.players.len() && w.players[i].slot == slot
        && w.players[i].energy >= stats_of(unit_type).cost
    &&& base_index(w.buildings, slot) >= 0
}

/// A freshly spawned unit: full health, idle, standing on its player's base.
pub open spec fn spawned_unit(w: World, slot: u8, unit_type: UnitType, id: Seq<char>) -> UnitModel {
    let b = w.buildings[base_index(w.buildings, slot)];
    UnitModel {
        id,
        player_slot: slot,
        unit_type,
        x: b.x,
        y: b.y,
        hp: stats_of(unit_type).hp,
        max_hp: stats_of(unit_type).hp,
        status: UnitStatus::Idle,
        path: Seq::empty(),
        target_id: None,
        cargo: 0,
    }
}

/// Spawning charges the unit's cost to the player and adds the unit at its base.
pub open spec fn spawn_spec(w: World, slot: u8, unit_type: UnitType, id: Seq<char>) -> World {
    if !can_spawn(w, slot, unit_type) {
        w
    } else {
        let pi = player_with(w, slot);
        World {
            players: w.players.update(pi, PlayerModel {
                energy: (w.players[pi].energy - stats_of(unit_type).cost) as i32,
                ..w.players[pi]
            }),
            units: w.units.push(spawned_unit(w, slot, unit_type, id)),
            ..w
        }
    }
}

proof fn lemma_spawn_keeps_ok(w: World, slot: u8, unit_type: UnitType, id: Seq<char>)
    requires
        world_ok(w),
    ensures
        world_ok(spawn_spec(w, slot, unit_type, id)),
{
    if can_spawn(w, slot, unit_type) {
        let i = choose|i: int| 0 <= i < w.players.len() && w.players[i].slot == slot
            && w.players[i].energy >= stats_of(unit_type).cost;
        lemma_first_index_props(player_slots(w.players), slot);
        let pi = player_with(w, slot);
        assert(player_slots(w.players)[i] == slot);
        assert(pi == i);
        let w2 = spawn_spec(w, slot, unit_type, id);
        lemma_energies_update(w.players, pi, w2.players[pi]);
        lemma_cargos_push(w.units, spawned_unit(w, slot, unit_type, id));
        crate::seqs::lemma_first_where_props(w.buildings, |b: crate::engine::BuildingModel| b.player_slot == slot && b.building_type == BuildingType::Base);
        assert(unit_ok(spawned_unit(w, slot, unit_type, id)));
        assert forall|k: int| 0 <= k < w2.units.len() implies unit_ok(#[trigger] w2.units[k]) by {
            if k < w.units.len() {
                assert(w2.units[k] == w.units[k]);
            }
        }
        assert(player_slots(w2.players) =~= player_slots(w.players));
        assert forall|k: int| 0 <= k < w2.units.len() implies player_slots(w2.players).contains((#[trigger] w2.units[k]).player_slot) by {
            if k < w.units.len() {
                assert(w2.units[k] == w.units[k]);
            } else {
                assert(player_slots(w.players)[i] == slot);
            }
        }
    }
}

/// Spawn a unit with a given identifier for a player, if the player can afford it and has a base.
pub fn spawn_unit_with_id(state: &mut GameState, player_slot: u8, unit_type: UnitType, id: String)
    requires
        old(state).wf(),
    ensures
        world(final(state)) == spawn_spec(world(old(state)), player_slot, unit_type, id@),
        same_frame(final(state), old(state)),
        final(state).resource_nodes == old(state).resource_nodes,
        final(state).buildings == old(state).buildings,
        final(state).wf(),
{
    let ghost w = world(state);
    let stats = unit_stats(unit_type);
    let mut has_energy = false;
    let mut i: usize = 0;
    while i < state.players.len()
        invariant
            0 <= i <= state.players@.len(),
            w == world(state),
            stats == stats_of(unit_type),
            has_energy <==> exists|k: int| 0 <= k < i && state.players@[k].slot == player_slot
                && state.players@[k].energy >= stats.cost,
        decreases state.players@.len() - i,
    {
        if state.players[i].slot == player_slot && state.players[i].energy >= stats.cost {
            has_energy = true;
        }
        i = i + 1;
    }
    proof {
        if has_energy {
            let k = choose|k: int| 0 <= k < state.players@.len() && state.players@[k].slot == player_slot
                && state.players@[k].energy >= stats.cost;
            assert(w.players[k].slot == player_slot && w.players[k].energy >= stats_of(unit_type).cost);
        } else {
            assert forall|k: int| 0 <= k < w.players.len() && w.players[k].slot == player_slot
                implies !(w.players[k].energy >= stats_of(unit_type).cost) by {
                assert(w.players[k] == state.players@[k]@);
            }
        }
    }
    if !has_energy {
        return;
    }
    let (bx, by) = match state.get_player_base(player_slot) {
        Some(b) => (b.x, b.y),
        None => {
            return;
        },
    };
    proof {
        lemma_spawn_keeps_ok(w, player_slot, unit_type, id@);
        lemma_first_index_props(player_slots(w.players), player_slot);
    }
    let pi = match find_player(&state.players, player_slot) {
        Some(pi) => pi,
        None => {
            proof {
                let k = choose|k: int| 0 <= k < w.players.len() && w.players[k].slot == player_slot
                    && w.players[k].energy >= stats_of(unit_type).cost;
                assert(player_slots(w.players)[k] == player_slot);
            }
            return;
        },
    };
    let ghost k = choose|k: int| 0 <= k < w.players.len() && w.players[k].slot == player_slot
        && w.players[k].energy >= stats_of(unit_type).cost;
    assert(player_slots(w.players)[k] == player_slot);
    assert(pi == k);
    state.players[pi].energy = state.players[pi].energy - stats.cost;
    let unit = Unit {
        id,
        player_slot,
        unit_type,
        x: bx,
        y: by,
        hp: stats.hp,
        max_hp: stats.hp,
        status: UnitStatus::Idle,
        path: Vec::new(),
        target_id: None,
        cargo: 0,
    };
    state.units.push(unit);
    proof {
        let w2 = spawn_spec(w, player_slot, unit_type, id@);
        assert(unit@ == spawned_unit(w, player_slot, unit_type, id@));
        assert(unit_models(state.units@) =~= w2.units);
        assert(player_models(state.players@) =~= w2.players);
    }
}


proof fn lemma_owned_has_id(w: World, slot: u8, id: Seq<char>)
    requires
        owned_unit(w, slot, id) >= 0,
    ensures
        0 <= unit_with(w, id) <= owned_unit(w, slot, id),
        unit_with(w, id) < w.units.len(),
        w.units[unit_with(w, id)].id == id,
{
    let i = owned_unit(w, slot, id);
    lemma_first_where_props(w.units, |u: UnitModel| u.id == id && u.player_slot == slot);
    lemma_first_index_props(crate::engine::unit_ids(w.units), id);
    assert(crate::engine::unit_ids(w.units)[i] == id);
}

/// Give a unit a path, keeping everything else about it.
pub open spec fn with_orders(u: UnitModel, path: Seq<Position>, status: UnitStatus, target: Option<Seq<char>>) -> UnitModel {
    UnitModel { path, status, target_id: target, ..u }
}

/// Where a move order sends the owned unit, if the player owns it.
pub open spec fn move_request(w: World, slot: u8, uid: Seq<char>, tx: i32, ty: i32) -> Option<(Position, Position)> {
    let i = owned_unit(w, slot, uid);
    if i < 0 {
        None
    } else {
        Some((unit_pos(w.units[i]), Position { x: tx, y: ty }))
    }
}

/// A move order: the first unit with the id gets the path and starts moving;
/// when no path is found (the destination is blocked, unreachable or where the
/// unit stands) nothing happens.
pub open spec fn move_spec(w: World, slot: u8, uid: Seq<char>, tx: i32, ty: i32, path: Seq<Position>) -> World {
    if owned_unit(w, slot, uid) < 0 || path.len() == 0 {
        w
    } else {
        let j = unit_with(w, uid);
        World { units: w.units.update(j, with_orders(w.units[j], path, UnitStatus::Moving, None)), ..w }
    }
}

/// An attack order: when the target exists, the owned unit targets it and attacks.
pub open spec fn attack_spec(w: World, slot: u8, uid: Seq<char>, tid: Seq<char>) -> World {
    let i = owned_unit(w, slot, uid);
    if !(unit_with(w, tid) >= 0 || building_with(w, tid) >= 0) || i < 0 {
        w
    } else {
        World { units: w.units.update(i, UnitModel { target_id: Some(tid), status: UnitStatus::Attacking, ..w.units[i] }), ..w }
    }
}

/// Whether a harvest order is one the rules act on: the resource exists and the
/// player's unit is a worker.
pub open spec fn harvest_applies(w: World, slot: u8, uid: Seq<char>, rid: Seq<char>) -> bool {
    let r = resource_with(w, rid);
    let i = owned_unit(w, slot, uid);
    r >= 0 && i >= 0 && w.units[i].unit_type == UnitType::Worker
}

/// The walk a harvest order needs: from the worker to a resource more than one hex away.
pub open spec fn harvest_request(w: World, slot: u8, uid: Seq<char>, rid: Seq<char>) -> Option<(Position, Position)> {
    let r = resource_with(w, rid);
    let i = owned_unit(w, slot, uid);
    if harvest_applies(w, slot, uid, rid) && hex_dist(unit_pos(w.units[i]), resource_pos(w.resources[r])) > 1 {
        Some((unit_pos(w.units[i]), resource_pos(w.resources[r])))
    } else {
        None
    }
}

/// A harvest order: a worker next to (or on) the resource starts harvesting; one
/// further away walks there with the resource as its target.
pub open spec fn harvest_order_spec(w: World, slot: u8, uid: Seq<char>, rid: Seq<char>, path: Seq<Position>) -> World {
    let r = resource_with(w, rid);
    let i = owned_unit(w, slot, uid);
    if !harvest_applies(w, slot, uid, rid) {
        w
    } else if hex_dist(unit_pos(w.units[i]), resource_pos(w.resources[r])) > 1 {
        let j = unit_with(w, uid);
        World { units: w.units.update(j, with_orders(w.units[j], path, UnitStatus::Moving, Some(rid))), ..w }
    } else {
        World { units: w.units.update(i, UnitModel { status: UnitStatus::Harvesting, target_id: Some(rid), ..w.units[i] }), ..w }
    }
}

/// The walk a command asks the pathfinder for, if any.
pub open spec fn command_request(w: World, c: CommandModel) -> Option<(Position, Position)> {
    match c {
        CommandModel::SpawnUnit { .. } => None,
        CommandModel::MoveUnit { player_slot, unit_id, target_x, target_y } => move_request(w, player_slot, unit_id, target_x, target_y),
        CommandModel::AttackTarget { .. } => None,
        CommandModel::Harvest { player_slot, unit_id, resource_id } => harvest_request(w, player_slot, unit_id, resource_id),
    }
}

/// The effect of one command, given the identifier a spawn uses and the path a walk follows.
pub open spec fn command_spec(w: World, c: CommandModel, id: Seq<char>, path: Seq<Position>) -> World {
    match c {
        CommandModel::SpawnUnit { player_slot, unit_type } => spawn_spec(w, player_slot, unit_type, id),
        CommandModel::MoveUnit { player_slot, unit_id, target_x, target_y } => move_spec(w, player_slot, unit_id, target_x, target_y, path),
        CommandModel::AttackTarget { player_slot, unit_id, target_id } => attack_spec(w, player_slot, unit_id, target_id),
        CommandModel::Harvest { player_slot, unit_id, resource_id } => harvest_order_spec(w, player_slot, unit_id, resource_id, path),
    }
}

/// The identifier and path one command used are ones the identifier source and the pathfinder can give.
pub open spec fn command_inputs_ok(s: &GameState, w: World, c: CommandModel, id: Seq<char>, path: Seq<Position>) -> bool {
    &&& (c is SpawnUnit ==> uuid_shaped(id))
    &&& match command_request(w, c) {
        Some((a, b)) => path_found(s, a, b, path),
        None => true,
    }
}

/// Commands run in order, each on the world the previous ones left.
pub open spec fn commands_spec(w: World, cs: Seq<CommandModel>, ids: Seq<Seq<char>>, paths: Seq<Seq<Position>>) -> World
    decreases cs.len(),
{
    if cs.len() == 0 {
        w
    } else {
        command_spec(commands_spec(w, cs.drop_last(), ids, paths), cs.last(), ids[cs.len() - 1], paths[cs.len() - 1])
    }
}

pub open spec fn commands_inputs_ok(s: &GameState, w: World, cs: Seq<CommandModel>, ids: Seq<Seq<char>>, paths: Seq<Seq<Position>>) -> bool {
    &&& ids.len() == cs.len()
    &&& paths.len() == cs.len()
    &&& forall|k: int| 0 <= k < cs.len() ==> command_inputs_ok(s, commands_spec(w, cs.take(k), ids, paths), #[trigger] cs[k], ids[k], paths[k])
}

/// A walk the pathfinder returns stays on the map.
proof fn lemma_found_path_ok(s: &GameState, a: Position, b: Position, path: Seq<Position>)
    requires
        s.terrain_ok(),
        path_found(s, a, b, path),
    ensures
        forall|i: int| 0 <= i < path.len() ==> coord_ok(#[trigger] path[i]),
{
    assert forall|i: int| 0 <= i < path.len() implies coord_ok(#[trigger] path[i]) by {
        lemma_unblocked_coord_ok(s, path[i]);
    }
}

proof fn lemma_orders_keep_ok(w: World, j: int, u: UnitModel)
    requires
        world_ok(w),
        0 <= j < w.units.len(),
        u.cargo == w.units[j].cargo,
        u.x == w.units[j].x,
        u.y == w.units[j].y,
        u.hp == w.units[j].hp,
        u.player_slot == w.units[j].player_slot,
        forall|i: int| 0 <= i < u.path.len() ==> coord_ok(#[trigger] u.path[i]),
    ensures
        world_ok(World { units: w.units.update(j, u), ..w }),
{
    let w2 = World { units: w.units.update(j, u), ..w };
    assert forall|k: int| 0 <= k < w2.units.len() implies player_slots(w2.players).contains((#[trigger] w2.units[k]).player_slot) by {
        if k != j {
            assert(w2.units[k] == w.units[k]);
        }
    }
    lemma_cargos_update(w.units, j, u);
    assert(unit_ok(u));
    assert forall|k: int| 0 <= k < w2.units.len() implies unit_ok(#[trigger] w2.units[k]) by {
        if k != j {
            assert(w2.units[k] == w.units[k]);
        }
    }
}

fn execute_move_unit(state: &mut GameState, player_slot: u8, unit_id: &String, target_x: i32, target_y: i32)
    requires
        old(state).wf(),
    ensures
        exists|p: Seq<Position>|
            command_inputs_ok(old(state), world(old(state)),
                (CommandModel::MoveUnit { player_slot, unit_id: unit_id@, target_x, target_y }), Seq::empty(), p)
            && world(final(state)) == move_spec(world(old(state)), player_slot, unit_id@, target_x, target_y, p),
        same_frame(final(state), old(state)),
        final(state).resource_nodes == old(state).resource_nodes,
        final(state).buildings == old(state).buildings,
        final(state).players == old(state).players,
        final(state).wf(),
{
    let ghost w = world(state);
    let i = match find_owned_unit(&state.units, player_slot, unit_id) {
        Some(i) => i,
        None => {
            proof {
                assert(world(state) == move_spec(w, player_slot, unit_id@, target_x, target_y, Seq::empty()));
            }
            return;
        },
    };
    proof {
        lemma_first_where_props(w.units, |u: UnitModel| u.id == unit_id@ && u.player_slot == player_slot);
        lemma_owned_has_id(w, player_slot, unit_id@);
        assert(unit_ok(w.units[i as int]));
    }
    let start = Position::new(state.units[i].x, state.units[i].y);
    let end = Position::new(target_x, target_y);
    let path = find_path(state, start, end);
    let ghost p = path@;
    proof { lemma_found_path_ok(state, start, end, p); }
    if path.len() == 0 {
        proof {
            assert(world(state) == move_spec(w, player_slot, unit_id@, target_x, target_y, p));
        }
        return;
    }
    let j = match find_unit(&state.units, unit_id) {
        Some(j) => j,
        None => {
            assert(false);
            return;
        },
    };
    state.units[j].path = path;
    state.units[j].status = UnitStatus::Moving;
    state.units[j].target_id = None;
    proof {
        let w2 = move_spec(w, player_slot, unit_id@, target_x, target_y, p);
        assert(unit_models(state.units@) =~= w2.units);
        assert(world(state) == w2);
        lemma_orders_keep_ok(w, j as int, with_orders(w.units[j as int], p, UnitStatus::Moving, None));
    }
}

fn execute_attack_target(state: &mut GameState, player_slot: u8, unit_id: &String, target_id: &String)
    requires
        old(state).wf(),
    ensures
        world(final(state)) == attack_spec(world(old(state)), player_slot, unit_id@, target_id@),
        same_frame(final(state), old(state)),
        final(state).resource_nodes == old(state).resource_nodes,
        final(state).buildings == old(state).buildings,
        final(state).players == old(state).players,
        final(state).wf(),
{
    let ghost w = world(state);
    let tu = find_unit(&state.units, target_id);
    let target_exists = match tu {
        Some(_) => true,
        None => match find_building(&state.buildings, target_id) {
            Some(_) => true,
            None => false,
        },
    };
    if !target_exists {
        return;
    }
    match find_owned_unit(&state.units, player_slot, unit_id) {
        Some(i) => {
            proof {
                lemma_first_where_props(w.units, |u: UnitModel| u.id == unit_id@ && u.player_slot == player_slot);
            }
            state.units[i].target_id = Some(target_id.clone());
            state.units[i].status = UnitStatus::Attacking;
            proof {
                let u2 = UnitModel { target_id: Some(target_id@), status: UnitStatus::Attacking, ..w.units[i as int] };
                assert(unit_models(state.units@) =~= w.units.update(i as int, u2));
                lemma_orders_keep_ok(w, i as int, u2);
            }
        },
        None => {},
    }
}

fn execute_harvest(state: &mut GameState, player_slot: u8, unit_id: &String, resource_id: &String)
    requires
        old(state).wf(),
    ensures
        exists|p: Seq<Position>|
            command_inputs_ok(old(state), world(old(state)),
                (CommandModel::Harvest { player_slot, unit_id: unit_id@, resource_id: resource_id@ }), Seq::empty(), p)
            && world(final(state)) == harvest_order_spec(world(old(state)), player_slot, unit_id@, resource_id@, p),
        same_frame(final(state), old(state)),
        final(state).resource_nodes == old(state).resource_nodes,
        final(state).buildings == old(state).buildings,
        final(state).players == old(state).players,
        final(state).wf(),
{
    let ghost w = world(state);
    proof {
        lemma_first_index_props(crate::engine::resource_ids(w.resources), resource_id@);
        lemma_first_where_props(w.units, |u: UnitModel| u.id == unit_id@ && u.player_slot == player_slot);
    }
    let r = match find_resource(&state.resource_nodes, resource_id) {
        Some(r) => r,
        None => {
            assert(world(state) == harvest_order_spec(w, player_slot, unit_id@, resource_id@, Seq::empty()));
            return;
        },
    };
    let rx = state.resource_nodes[r].x;
    let ry = state.resource_nodes[r].y;
    let i = match find_owned_unit(&state.units, player_slot, unit_id) {
        Some(i) => i,
        None => {
            assert(world(state) == harvest_order_spec(w, player_slot, unit_id@, resource_id@, Seq::empty()));
            return;
        },
    };
    if state.units[i].unit_type != UnitType::Worker {
        assert(world(state) == harvest_order_spec(w, player_slot, unit_id@, resource_id@, Seq::empty()));
        return;
    }
    assert(unit_ok(w.units[i as int]));
    assert(crate::engine::resource_ok(w.resources[r as int]));
    let upos = Position::new(state.units[i].x, state.units[i].y);
    let rpos = Position::new(rx, ry);
    let dist = hex_distance(upos, rpos);
    if dist > 1 {
        let path = find_path(state, upos, rpos);
        let ghost p = path@;
        assert(path_found(old(state), upos, rpos, p));
        proof {
            lemma_found_path_ok(state, upos, rpos, p);
            lemma_owned_has_id(w, player_slot, unit_id@);
        }
        let j = match find_unit(&state.units, unit_id) {
            Some(j) => j,
            None => {
                assert(false);
                return;
            },
        };
        state.units[j].path = path;
        state.units[j].status = UnitStatus::Moving;
        state.units[j].target_id = Some(resource_id.clone());
        proof {
            let u2 = with_orders(w.units[j as int], p, UnitStatus::Moving, Some(resource_id@));
            assert(unit_models(state.units@) =~= w.units.update(j as int, u2));
            lemma_orders_keep_ok(w, j as int, u2);
            let c = CommandModel::Harvest { player_slot, unit_id: unit_id@, resource_id: resource_id@ };
            assert(command_request(w, c) == Some((upos, rpos)));
            assert(command_inputs_ok(old(state), w, c, Seq::empty(), p)
                && world(state) == harvest_order_spec(w, player_slot, unit_id@, resource_id@, p));
        }
    } else {
        state.units[i].status = UnitStatus::Harvesting;
        state.units[i].target_id = Some(resource_id.clone());
        proof {
            let u2 = UnitModel { status: UnitStatus::Harvesting, target_id: Some(resource_id@), ..w.units[i as int] };
            assert(unit_models(state.units@) =~= w.units.update(i as int, u2));
            lemma_orders_keep_ok(w, i as int, u2);
            assert(world(state) == harvest_order_spec(w, player_slot, unit_id@, resource_id@, Seq::empty()));
            let c = CommandModel::Harvest { player_slot, unit_id: unit_id@, resource_id: resource_id@ };
            assert(command_inputs_ok(old(state), w, c, Seq::empty(), Seq::empty()));
        }
    }
}


fn execute_spawn_unit(state: &mut GameState, player_slot: u8, unit_type: UnitType)
    requires
        old(state).wf(),
    ensures
        exists|id: Seq<char>| uuid_shaped(id) && world(final(state)) == spawn_spec(world(old(state)), player_slot, unit_type, id),
        same_frame(final(state), old(state)),
        final(state).resource_nodes == old(state).resource_nodes,
        final(state).buildings == old(state).buildings,
        final(state).wf(),
{
    let id = new_id();
    let ghost idv = id@;
    spawn_unit_with_id(state, player_slot, unit_type, id);
    assert(uuid_shaped(idv) && world(state) == spawn_spec(world(old(state)), player_slot, unit_type, idv));
}

fn execute_command(state: &mut GameState, cmd: &Command)
    requires
        old(state).wf(),
    ensures
        exists|id: Seq<char>, p: Seq<Position>|
            command_inputs_ok(old(state), world(old(state)), cmd@, id, p)
            && world(final(state)) == command_spec(world(old(state)), cmd@, id, p),
        same_frame(final(state), old(state)),
        final(state).resource_nodes == old(state).resource_nodes,
        final(state).buildings == old(state).buildings,
        final(state).wf(),
{
    let ghost w = world(state);
    match cmd {
        Command::SpawnUnit { player_slot, unit_type } => {
            execute_spawn_unit(state, *player_slot, *unit_type);
            let ghost id = choose|id: Seq<char>| uuid_shaped(id) && world(state) == spawn_spec(w, *player_slot, *unit_type, id);
            assert(command_inputs_ok(old(state), w, cmd@, id, Seq::empty()));
            assert(world(state) == command_spec(w, cmd@, id, Seq::empty()));
        },
        Command::MoveUnit { player_slot, unit_id, target_x, target_y } => {
            execute_move_unit(state, *player_slot, unit_id, *target_x, *target_y);
            let ghost p = choose|p: Seq<Position>|
                command_inputs_ok(old(state), w,
                    (CommandModel::MoveUnit { player_slot: *player_slot, unit_id: unit_id@, target_x: *target_x, target_y: *target_y }), Seq::empty(), p)
                && world(state) == move_spec(w, *player_slot, unit_id@, *target_x, *target_y, p);
            assert(command_inputs_ok(old(state), w, cmd@, Seq::empty(), p));
            assert(world(state) == command_spec(w, cmd@, Seq::empty(), p));
        },
        Command::AttackTarget { player_slot, unit_id, target_id } => {
            execute_attack_target(state, *player_slot, unit_id, target_id);
            assert(command_inputs_ok(old(state), w, cmd@, Seq::empty(), Seq::empty()));
            assert(world(state) == command_spec(w, cmd@, Seq::empty(), Seq::empty()));
        },
        Command::Harvest { player_slot, unit_id, resource_id } => {
            execute_harvest(state, *player_slot, unit_id, resource_id);
            let ghost p = choose|p: Seq<Position>|
                command_inputs_ok(old(state), w,
                    (CommandModel::Harvest { player_slot: *player_slot, unit_id: unit_id@, resource_id: resource_id@ }), Seq::empty(), p)
                && world(state) == harvest_order_spec(w, *player_slot, unit_id@, resource_id@, p);
            assert(command_inputs_ok(old(state), w, cmd@, Seq::empty(), p));
            assert(world(state) == command_spec(w, cmd@, Seq::empty(), p));
        },
    }
}

proof fn lemma_commands_spec_prefix(w: World, cs: Seq<CommandModel>, ids: Seq<Seq<char>>, paths: Seq<Seq<Position>>, ids2: Seq<Seq<char>>, paths2: Seq<Seq<Position>>)
    requires
        cs.len() <= ids.len(),
        cs.len() <= ids2.len(),
        cs.len() <= paths.len(),
        cs.len() <= paths2.len(),
        forall|k: int| 0 <= k < cs.len() ==> ids[k] == ids2[k] && paths[k] == paths2[k],
    ensures
        commands_spec(w, cs, ids, paths) == commands_spec(w, cs, ids2, paths2),
    decreases cs.len(),
{
    if cs.len() > 0 {
        lemma_commands_spec_prefix(w, cs.drop_last(), ids, paths, ids2, paths2);
    }
}

/// Running the commands of `a` and then those of `b` is running `a ++ b`, with
/// the ids and paths of the two runs laid end to end.
pub proof fn lemma_commands_concat(
    w: World,
    a: Seq<CommandModel>,
    b: Seq<CommandModel>,
    ids_a: Seq<Seq<char>>,
    paths_a: Seq<Seq<Position>>,
    ids_b: Seq<Seq<char>>,
    paths_b: Seq<Seq<Position>>,
)
    requires
        ids_a.len() == a.len(),
        paths_a.len() == a.len(),
        ids_b.len() == b.len(),
        paths_b.len() == b.len(),
    ensures
        commands_spec(w, a + b, ids_a + ids_b, paths_a + paths_b)
            == commands_spec(commands_spec(w, a, ids_a, paths_a), b, ids_b, paths_b),
    decreases b.len(),
{
    let ids = ids_a + ids_b;
    let paths = paths_a + paths_b;
    if b.len() == 0 {
        assert(a + b =~= a);
        lemma_commands_spec_prefix(w, a, ids, paths, ids_a, paths_a);
    } else {
        let b0 = b.drop_last();
        lemma_commands_concat(w, a, b0, ids_a, paths_a, ids_b.drop_last(), paths_b.drop_last());
        assert((a + b).drop_last() =~= a + b0);
        assert((a + b).last() == b.last());
        lemma_commands_spec_prefix(w, a + b0, ids, paths, ids_a + ids_b.drop_last(), paths_a + paths_b.drop_last());
        lemma_commands_spec_prefix(commands_spec(w, a, ids_a, paths_a), b0, ids_b, paths_b, ids_b.drop_last(), paths_b.drop_last());
        assert(ids[(a + b).len() - 1] == ids_b[b.len() - 1]);
        assert(paths[(a + b).len() - 1] == paths_b[b.len() - 1]);
    }
}

/// A run of `a` followed by a run of `b`, each with inputs the pathfinder and
/// the id source could have given, is such a run of `a ++ b`.
pub proof fn lemma_commands_inputs_concat(
    s: &GameState,
    w: World,
    a: Seq<CommandModel>,
    b: Seq<CommandModel>,
    ids_a: Seq<Seq<char>>,
    paths_a: Seq<Seq<Position>>,
    ids_b: Seq<Seq<char>>,
    paths_b: Seq<Seq<Position>>,
)
    requires
        commands_inputs_ok(s, w, a, ids_a, paths_a),
        commands_inputs_ok(s, commands_spec(w, a, ids_a, paths_a), b, ids_b, paths_b),
    ensures
        commands_inputs_ok(s, w, a + b, ids_a + ids_b, paths_a + paths_b),
{
    let ids = ids_a + ids_b;
    let paths = paths_a + paths_b;
    let cs = a + b;
    let wa = commands_spec(w, a, ids_a, paths_a);
    assert forall|k: int| 0 <= k < cs.len() implies
        command_inputs_ok(s, commands_spec(w, cs.take(k), ids, paths), #[trigger] cs[k], ids[k], paths[k]) by {
        if k < a.len() {
            assert(cs.take(k) =~= a.take(k));
            assert(cs[k] == a[k] && ids[k] == ids_a[k] && paths[k] == paths_a[k]);
            lemma_commands_spec_prefix(w, a.take(k), ids, paths, ids_a, paths_a);
        } else {
            let m = k - a.len();
            assert(cs.take(k) =~= a + b.take(m));
            assert(cs[k] == b[m] && ids[k] == ids_b[m] && paths[k] == paths_b[m]);
            lemma_commands_spec_prefix(w, a + b.take(m), ids, paths, ids_a + ids_b.take(m), paths_a + paths_b.take(m));
            lemma_commands_concat(w, a, b.take(m), ids_a, paths_a, ids_b.take(m), paths_b.take(m));
            lemma_commands_spec_prefix(wa, b.take(m), ids_b, paths_b, ids_b.take(m), paths_b.take(m));
            assert(command_inputs_ok(s, commands_spec(wa, b.take(m), ids_b, paths_b), b[m], ids_b[m], paths_b[m]));
        }
    }
}

/// Execute a batch of commands in order.
pub fn execute_commands(state: &mut GameState, commands: Vec<Command>)
    requires
        old(state).wf(),
    ensures
        exists|ids: Seq<Seq<char>>, paths: Seq<Seq<Position>>|
            commands_inputs_ok(old(state), world(old(state)), command_models(commands@), ids, paths)
            && world(final(state)) == commands_spec(world(old(state)), command_models(commands@), ids, paths),
        same_frame(final(state), old(state)),
        final(state).resource_nodes == old(state).resource_nodes,
        final(state).buildings == old(state).buildings,
        final(state).wf(),
{
    let ghost w0 = world(state);
    let ghost cs = command_models(commands@);
    let ghost mut ids: Seq<Seq<char>> = Seq::empty();
    let ghost mut paths: Seq<Seq<Position>> = Seq::empty();
    let mut k: usize = 0;
    while k < commands.len()
        invariant
            0 <= k <= commands@.len(),
            cs == command_models(commands@),
            w0 == world(old(state)),
            ids.len() == k,
            paths.len() == k,
            world(state) == commands_spec(w0, cs.take(k as int), ids, paths),
            forall|j: int| 0 <= j < k ==> command_inputs_ok(old(state), commands_spec(w0, cs.take(j), ids, paths), #[trigger] cs[j], ids[j], paths[j]),
            same_frame(state, old(state)),
            state.resource_nodes == old(state).resource_nodes,
            state.buildings == old(state).buildings,
            state.wf(),
        decreases commands@.len() - k,
    {
        let ghost wk = world(state);
        let ghost sk = *state;
        execute_command(state, &commands[k]);
        let ghost (id, p) = choose|id: Seq<char>, p: Seq<Position>|
            command_inputs_ok(&sk, wk, commands@[k as int]@, id, p)
            && world(state) == command_spec(wk, commands@[k as int]@, id, p);
        proof {
            let ids2 = ids.push(id);
            let paths2 = paths.push(p);
            assert(cs[k as int] == commands@[k as int]@);
            match command_request(wk, cs[k as int]) {
                Some((a, b)) => {
                    lemma_path_found_frame(&sk, old(state), a, b, p);
                },
                None => {},
            }
            assert forall|j: int| 0 <= j <= k implies commands_spec(w0, cs.take(j), ids, paths) == commands_spec(w0, cs.take(j), ids2, paths2) by {
                lemma_commands_spec_prefix(w0, cs.take(j), ids, paths, ids2, paths2);
            }
            assert(cs.take(k + 1).drop_last() =~= cs.take(k as int));
            assert(commands_spec(w0, cs.take(k + 1), ids2, paths2) == command_spec(commands_spec(w0, cs.take(k as int), ids2, paths2), cs[k as int], id, p));
            ids = ids2;
            paths = paths2;
        }
        k = k + 1;
    }
    assert(cs.take(cs.len() as int) =~= cs);
    assert(commands_inputs_ok(old(state), w0, cs, ids, paths));
}


/// Whether the terrain at a cell exists and can be walked on (buildings do not stop movement).
pub open spec fn terrain_passable(terrain: Seq<Vec<Tile>>, p: Position) -> bool {
    &&& 0 <= p.y < terrain.len()
    &&& 0 <= p.x < terrain[p.y as int]@.len()
    &&& passable_type(terrain[p.y as int]@[p.x as int].tile_type)
}

/// Up to `steps` steps along a unit's path; a step onto impassable terrain
/// instead drops the path and leaves the unit idle where it stands.
pub open spec fn walk_steps(terrain: Seq<Vec<Tile>>, u: UnitModel, steps: nat) -> UnitModel
    decreases steps,
{
    if steps == 0 || u.path.len() == 0 {
        u
    } else {
        let next = u.path[0];
        if !terrain_passable(terrain, next) {
            UnitModel { path: Seq::empty(), status: UnitStatus::Idle, ..u }
        } else {
            walk_steps(terrain, UnitModel { x: next.x, y: next.y, path: u.path.drop_first(), ..u }, (steps - 1) as nat)
        }
    }
}

/// One tick of movement for one unit: a moving unit walks up to its speed; one
/// that reaches the end of its path starts harvesting if it has a target and
/// idles otherwise.
pub open spec fn moved_unit(terrain: Seq<Vec<Tile>>, u: UnitModel) -> UnitModel {
    if u.status != UnitStatus::Moving || u.path.len() == 0 {
        u
    } else {
        let v = walk_steps(terrain, u, stats_of(u.unit_type).speed as nat);
        if v.path.len() == 0 && v.status == UnitStatus::Moving {
            if v.target_id is Some {
                UnitModel { status: UnitStatus::Harvesting, ..v }
            } else {
                UnitModel { status: UnitStatus::Idle, ..v }
            }
        } else {
            v
        }
    }
}

proof fn lemma_walk_steps_frame(terrain: Seq<Vec<Tile>>, u: UnitModel, steps: nat)
    requires
        unit_ok(u),
    ensures
        unit_ok(walk_steps(terrain, u, steps)),
        walk_steps(terrain, u, steps).cargo == u.cargo,
        walk_steps(terrain, u, steps).id == u.id,
        walk_steps(terrain, u, steps).unit_type == u.unit_type,
        walk_steps(terrain, u, steps).player_slot == u.player_slot,
        walk_steps(terrain, u, steps).target_id == u.target_id,
        walk_steps(terrain, u, steps).status == u.status || walk_steps(terrain, u, steps).status == UnitStatus::Idle,
    decreases steps,
{
    if steps > 0 && u.path.len() > 0 && terrain_passable(terrain, u.path[0]) {
        let u2 = UnitModel { x: u.path[0].x, y: u.path[0].y, path: u.path.drop_first(), ..u };
        assert(unit_ok(u2)) by {
            assert(coord_ok(u.path[0]));
            assert forall|i: int| 0 <= i < u2.path.len() implies coord_ok(#[trigger] u2.path[i]) by {
                assert(u2.path[i] == u.path[i + 1]);
            }
        }
        lemma_walk_steps_frame(terrain, u2, (steps - 1) as nat);
    }
}

/// Advance every moving unit along its path.
pub fn resolve_movement(state: &mut GameState)
    requires
        old(state).wf(),
    ensures
        unit_models(final(state).units@) == unit_models(old(state).units@).map_values(|u: UnitModel| moved_unit(old(state).terrain@, u)),
        same_frame(final(state), old(state)),
        final(state).resource_nodes == old(state).resource_nodes,
        final(state).buildings == old(state).buildings,
        final(state).players == old(state).players,
        final(state).wf(),
{
    let ghost old_units = unit_models(state.units@);
    let ghost terrain = state.terrain@;
    let n = state.units.len();
    let mut i: usize = 0;
    while i < n
        invariant
            0 <= i <= n,
            n == state.units@.len(),
            old_units.len() == n,
            terrain == state.terrain@,
            same_frame(state, old(state)),
            state.resource_nodes == old(state).resource_nodes,
            state.buildings == old(state).buildings,
            state.players == old(state).players,
            old(state).wf(),
            forall|k: int| 0 <= k < i ==> #[trigger] state.units@[k]@ == moved_unit(terrain, old_units[k]),
            forall|k: int| i <= k < n ==> #[trigger] state.units@[k]@ == old_units[k],
            old_units == unit_models(old(state).units@),
        decreases n - i,
    {
        assert(unit_ok(old_units[i as int])) by {
            assert(world(old(state)).units[i as int] == old_units[i as int]);
        }
        if state.units[i].status == UnitStatus::Moving && state.units[i].path.len() > 0 {
            let ghost u0 = state.units@[i as int]@;
            let speed = unit_stats(state.units[i].unit_type).speed;
            let mut steps: u32 = speed;
            while steps > 0 && state.units[i].path.len() > 0
                invariant
                    0 <= i < n,
                    n == state.units@.len(),
                    terrain == state.terrain@,
                    same_frame(state, old(state)),
                    state.resource_nodes == old(state).resource_nodes,
                    state.buildings == old(state).buildings,
                    state.players == old(state).players,
                    forall|k: int| 0 <= k < i ==> #[trigger] state.units@[k]@ == moved_unit(terrain, old_units[k]),
                    forall|k: int| i < k < n ==> #[trigger] state.units@[k]@ == old_units[k],
                    walk_steps(terrain, u0, speed as nat) == walk_steps(terrain, state.units@[i as int]@, steps as nat),
                decreases steps,
            {
                let next = state.units[i].path[0];
                let ghost cur = state.units@[i as int]@;
                let passable = next.y >= 0 && (next.y as usize) < state.terrain.len() && next.x >= 0
                    && (next.x as usize) < state.terrain[next.y as usize].len()
                    && tile_movement_cost_halves(state.terrain[next.y as usize][next.x as usize].tile_type).is_some();
                assert(passable == terrain_passable(terrain, next));
                if !passable {
                    state.units[i].path.clear();
                    state.units[i].status = UnitStatus::Idle;
                    steps = 0;
                    assert(state.units@[i as int]@ == (UnitModel { path: Seq::empty(), status: UnitStatus::Idle, ..cur }));
                } else {
                    state.units[i].x = next.x;
                    state.units[i].y = next.y;
                    state.units[i].path.remove(0);
                    assert(state.units@[i as int]@ == (UnitModel { x: next.x, y: next.y, path: cur.path.drop_first(), ..cur }));
                    steps = steps - 1;
                }
            }
            let ghost v = walk_steps(terrain, u0, speed as nat);
            assert(state.units@[i as int]@ == v);
            if state.units[i].path.len() == 0 {
                if state.units[i].target_id.is_some() && state.units[i].status == UnitStatus::Moving {
                    state.units[i].status = UnitStatus::Harvesting;
                } else if state.units[i].status == UnitStatus::Moving {
                    state.units[i].status = UnitStatus::Idle;
                }
            }
            assert(state.units@[i as int]@ == moved_unit(terrain, old_units[i as int]));
        }
        i = i + 1;
    }
    proof {
        let w0 = world(old(state));
        let w1 = world(state);
        assert(unit_models(state.units@) =~= old_units.map_values(|u: UnitModel| moved_unit(terrain, u)));
        assert forall|k: int| 0 <= k < n implies unit_ok(#[trigger] w1.units[k]) && w1.units[k].cargo == w0.units[k].cargo by {
            lemma_walk_steps_frame(terrain, old_units[k], stats_of(old_units[k].unit_type).speed as nat);
            assert(w0.units[k] == old_units[k]);
            assert(unit_ok(old_units[k]));
        }
        assert(cargos(w1.units) =~= cargos(w0.units));
        assert(economy(w1) == economy(w0));
        assert forall|k: int| 0 <= k < w1.units.len() implies player_slots(w1.players).contains((#[trigger] w1.units[k]).player_slot) by {
            lemma_walk_steps_frame(terrain, old_units[k], stats_of(old_units[k].unit_type).speed as nat);
            assert(w0.units[k] == old_units[k]);
        }
    }
}

/// A harvest order for a worker of the player sends it to the named resource
/// node: the worker's target becomes that node; a worker more than one hex away
/// takes the given walk and starts moving, one within a hex starts harvesting
/// where it stands; no other unit changes.
pub proof fn law_harvest_order_targets_the_node(
    w: World,
    slot: u8,
    uid: Seq<char>,
    rid: Seq<char>,
    id: Seq<char>,
    path: Seq<Position>,
    i: int,
    r: int,
)
    requires
        forall|a: int, b: int| 0 <= a < b < w.units.len() ==> w.units[a].id != w.units[b].id,
        forall|a: int, b: int| 0 <= a < b < w.resources.len() ==> w.resources[a].id != w.resources[b].id,
        0 <= i < w.units.len(),
        w.units[i].id == uid,
        w.units[i].player_slot == slot,
        w.units[i].unit_type == UnitType::Worker,
        0 <= r < w.resources.len(),
        w.resources[r].id == rid,
    ensures
        ({
            let w2 = command_spec(w, CommandModel::Harvest { player_slot: slot, unit_id: uid, resource_id: rid }, id, path);
            &&& w2.units.len() == w.units.len()
            &&& w2.units[i].target_id == Some(rid)
            &&& w2.units[i].id == uid
            &&& unit_pos(w2.units[i]) == unit_pos(w.units[i])
            &&& hex_dist(unit_pos(w.units[i]), resource_pos(w.resources[r])) > 1
                ==> w2.units[i].status == UnitStatus::Moving && w2.units[i].path == path
            &&& hex_dist(unit_pos(w.units[i]), resource_pos(w.resources[r])) <= 1
                ==> w2.units[i].status == UnitStatus::Harvesting
            &&& forall|k: int| 0 <= k < w.units.len() && k != i ==> w2.units[k] == w.units[k]
        }),
{
    let ids = crate::engine::unit_ids(w.units);
    assert forall|k: int| 0 <= k < i implies ids[k] != uid by {
        assert(ids[k] == w.units[k].id);
    }
    crate::seqs::lemma_first_index_is(ids, uid, i);
    assert forall|k: int| 0 <= k < i implies !(|u: UnitModel| u.id == uid && u.player_slot == slot)(#[trigger] w.units[k]) by {
        assert(w.units[k].id != w.units[i].id);
    }
    crate::seqs::lemma_first_where_is(w.units, |u: UnitModel| u.id == uid && u.player_slot == slot, i);
    let rids = crate::engine::resource_ids(w.resources);
    assert forall|k: int| 0 <= k < r implies rids[k] != rid by {
        assert(rids[k] == w.resources[k].id);
    }
    crate::seqs::lemma_first_index_is(rids, rid, r);
}

/// Walking a path no longer than the number of steps, over passable cells only,
/// ends at the path's last cell with nothing left to walk.
proof fn lemma_walk_to_the_end(terrain: Seq<Vec<Tile>>, u: UnitModel, steps: nat)
    requires
        0 < u.path.len() <= steps,
        forall|k: int| 0 <= k < u.path.len() ==> terrain_passable(terrain, #[trigger] u.path[k]),
    ensures
        walk_steps(terrain, u, steps).path.len() == 0,
        unit_pos(walk_steps(terrain, u, steps)) == u.path.last(),
        walk_steps(terrain, u, steps).status == u.status,
        walk_steps(terrain, u, steps).target_id == u.target_id,
    decreases steps,
{
    let next = u.path[0];
    let v = UnitModel { x: next.x, y: next.y, path: u.path.drop_first(), ..u };
    if u.path.len() > 1 {
        assert forall|k: int| 0 <= k < v.path.len() implies terrain_passable(terrain, #[trigger] v.path[k]) by {
            assert(v.path[k] == u.path[k + 1]);
        }
        lemma_walk_to_the_end(terrain, v, (steps - 1) as nat);
        assert(v.path.last() == u.path.last());
    } else {
        assert(walk_steps(terrain, v, (steps - 1) as nat) == v);
    }
}

/// A worker sent to a resource node, once its walk is over, starts harvesting:
/// a moving unit with a target whose whole path lies on passable ground within
/// one tick's steps ends the tick at the path's end, harvesting.
pub proof fn law_walk_ends_in_harvesting(terrain: Seq<Vec<Tile>>, u: UnitModel)
    requires
        u.status == UnitStatus::Moving,
        u.target_id is Some,
        0 < u.path.len() <= stats_of(u.unit_type).speed,
        forall|k: int| 0 <= k < u.path.len() ==> terrain_passable(terrain, #[trigger] u.path[k]),
    ensures
        moved_unit(terrain, u).status == UnitStatus::Harvesting,
        unit_pos(moved_unit(terrain, u)) == u.path.last(),
        moved_unit(terrain, u).target_id == u.target_id,
{
    lemma_walk_to_the_end(terrain, u, stats_of(u.unit_type).speed as nat);
}

} // verus!
