//! The autopilot: what a bot player orders every few ticks.

use vstd::prelude::*;

use crate::config::{Command, CommandModel, command_models};
use crate::engine::{
    Building, BuildingModel, GameState, ResourceNode, Unit, World, base_index, building_models, building_pos,
    resource_models, resource_pos, unit_models, unit_pos, world, MAX_MAP_DIM,
};
use crate::hex::{Position, coord_ok, hex_dist, hex_distance};
use crate::seqs::{lemma_filter_map_step, lemma_first_where_props, lemma_nearest_where_props, nearest_where};
use crate::state::{BuildingType, ResourceModel, UnitModel, UnitStatus, UnitType};

verus! {

/// What the autopilot needs of a world: every unit, building and resource node
/// stands at coordinates small enough for hex distances.
pub open spec fn positions_ok(w: World) -> bool {
    &&& forall|i: int| 0 <= i < w.units.len() ==> coord_ok(unit_pos(#[trigger] w.units[i]))
    &&& forall|i: int| 0 <= i < w.buildings.len() ==> coord_ok(building_pos(#[trigger] w.buildings[i]))
    &&& forall|i: int| 0 <= i < w.resources.len() ==> coord_ok(resource_pos(#[trigger] w.resources[i]))
}

/// Units of a player of one type.
pub open spec fn of_kind(slot: u8, t: UnitType) -> spec_fn(UnitModel) -> bool {
    |u: UnitModel| u.player_slot == slot && u.unit_type == t
}

/// Idle units of a player of one type.
pub open spec fn idle_of_kind(slot: u8, t: UnitType) -> spec_fn(UnitModel) -> bool {
    |u: UnitModel| u.player_slot == slot && u.unit_type == t && u.status == UnitStatus::Idle
}

pub open spec fn kind_count(us: Seq<UnitModel>, slot: u8, t: UnitType) -> nat {
    us.filter(of_kind(slot, t)).len()
}

/// What a bot spawns: two workers first, then a scout, then soldiers up to four,
/// then workers up to four, then soldiers.
pub open spec fn spawn_choice(workers: nat, scouts: nat, soldiers: nat) -> UnitType {
    if workers < 2 {
        UnitType::Worker
    } else if scouts == 0 {
        UnitType::Scout
    } else if soldiers < 4 {
        UnitType::Soldier
    } else if workers < 4 && soldiers >= 2 {
        UnitType::Worker
    } else {
        UnitType::Soldier
    }
}

/// Where a player's first base stands, if it has one.
pub open spec fn home(w: World, slot: u8) -> Option<Position> {
    let b = base_index(w.buildings, slot);
    if b >= 0 { Some(building_pos(w.buildings[b])) } else { None }
}

pub open spec fn has_energy() -> spec_fn(ResourceModel) -> bool {
    |r: ResourceModel| r.remaining > 0
}

/// The resource node with energy nearest to the bot's base (the first of the
/// nearest); -1 without a base or such a node.
pub open spec fn nearest_resource(w: World, slot: u8) -> int {
    match home(w, slot) {
        Some(bp) => nearest_where(w.resources, has_energy(), |r: ResourceModel| hex_dist(bp, resource_pos(r))),
        None => -1,
    }
}

pub open spec fn enemy_base(slot: u8) -> spec_fn(BuildingModel) -> bool {
    |b: BuildingModel| b.player_slot != slot && b.building_type == BuildingType::Base
}

/// Distance from the bot's base, or 0 for every building when it has none.
pub open spec fn base_distance(w: World, slot: u8) -> spec_fn(BuildingModel) -> int {
    |b: BuildingModel| match home(w, slot) {
        Some(bp) => hex_dist(bp, building_pos(b)),
        None => 0,
    }
}

/// The enemy base nearest to the bot's base; -1 when there is none.
pub open spec fn nearest_enemy_base(w: World, slot: u8) -> int {
    nearest_where(w.buildings, enemy_base(slot), base_distance(w, slot))
}

pub open spec fn enemy_unit(slot: u8) -> spec_fn(UnitModel) -> bool {
    |u: UnitModel| u.player_slot != slot
}

/// The enemy unit nearest to a cell; -1 when there is none.
pub open spec fn nearest_enemy_unit(w: World, slot: u8, from: Position) -> int {
    nearest_where(w.units, enemy_unit(slot), |u: UnitModel| hex_dist(from, unit_pos(u)))
}

pub open spec fn clamp(v: int, lo: int, hi: int) -> int {
    if v < lo { lo } else if v > hi { hi } else { v }
}

pub open spec fn spawn_part(w: World, slot: u8) -> Seq<CommandModel> {
    if base_index(w.buildings, slot) >= 0 {
        seq![CommandModel::SpawnUnit {
            player_slot: slot,
            unit_type: spawn_choice(
                kind_count(w.units, slot, UnitType::Worker),
                kind_count(w.units, slot, UnitType::Scout),
                kind_count(w.units, slot, UnitType::Soldier),
            ),
        }]
    } else {
        Seq::empty()
    }
}

/// Idle workers harvest the nearest resource node.
pub open spec fn harvest_part(w: World, slot: u8) -> Seq<CommandModel> {
    let r = nearest_resource(w, slot);
    if r >= 0 {
        w.units.filter(idle_of_kind(slot, UnitType::Worker)).map_values(|u: UnitModel|
            CommandModel::Harvest { player_slot: slot, unit_id: u.id, resource_id: w.resources[r].id })
    } else {
        Seq::empty()
    }
}

/// An idle scout heads three cells past the nearest enemy base, kept on the map,
/// or to the middle of the map when there is none.
pub open spec fn scout_order(w: World, slot: u8, width: u32, height: u32, u: UnitModel) -> CommandModel {
    let e = nearest_enemy_base(w, slot);
    if e >= 0 {
        CommandModel::MoveUnit {
            player_slot: slot,
            unit_id: u.id,
            target_x: clamp(w.buildings[e].x + 3, 0, width - 1) as i32,
            target_y: clamp(w.buildings[e].y + 3, 0, height - 1) as i32,
        }
    } else {
        CommandModel::MoveUnit { player_slot: slot, unit_id: u.id, target_x: 16, target_y: 16 }
    }
}

pub open spec fn scout_part(w: World, slot: u8, width: u32, height: u32) -> Seq<CommandModel> {
    w.units.filter(idle_of_kind(slot, UnitType::Scout)).map_values(|u: UnitModel| scout_order(w, slot, width, height, u))
}

/// An idle soldier attacks the nearest enemy unit closer than ten cells, else the
/// nearest enemy base, else walks to the middle of the map.
pub open spec fn soldier_order(w: World, slot: u8, u: UnitModel) -> CommandModel {
    let n = nearest_enemy_unit(w, slot, unit_pos(u));
    let e = nearest_enemy_base(w, slot);
    if n >= 0 && hex_dist(unit_pos(u), unit_pos(w.units[n])) < 10 {
        CommandModel::AttackTarget { player_slot: slot, unit_id: u.id, target_id: w.units[n].id }
    } else if e >= 0 {
        CommandModel::AttackTarget { player_slot: slot, unit_id: u.id, target_id: w.buildings[e].id }
    } else {
        CommandModel::MoveUnit { player_slot: slot, unit_id: u.id, target_x: 16, target_y: 16 }
    }
}

pub open spec fn soldier_part(w: World, slot: u8) -> Seq<CommandModel> {
    w.units.filter(idle_of_kind(slot, UnitType::Soldier)).map_values(|u: UnitModel| soldier_order(w, slot, u))
}

/// Everything a bot orders in one round: a spawn, then worker, scout and soldier orders.
pub open spec fn bot_commands(s: &GameState, slot: u8) -> Seq<CommandModel> {
    let w = world(s);
    spawn_part(w, slot) + harvest_part(w, slot) + scout_part(w, slot, s.map_width, s.map_height) + soldier_part(w, slot)
}

fn count_kinds(units: &Vec<Unit>, slot: u8) -> (r: (usize, usize, usize))
    ensures
        r.0 == kind_count(unit_models(units@), slot, UnitType::Worker),
        r.1 == kind_count(unit_models(units@), slot, UnitType::Scout),
        r.2 == kind_count(unit_models(units@), slot, UnitType::Soldier),
{
    let ghost all = unit_models(units@);
    let ghost pw = of_kind(slot, UnitType::Worker);
    let ghost pc = of_kind(slot, UnitType::Scout);
    let ghost ps = of_kind(slot, UnitType::Soldier);
    let mut workers: usize = 0;
    let mut scouts: usize = 0;
    let mut soldiers: usize = 0;
    let mut i: usize = 0;
    while i < units.len()
        invariant
            0 <= i <= units@.len(),
            all == unit_models(units@),
            pw == of_kind(slot, UnitType::Worker),
            pc == of_kind(slot, UnitType::Scout),
            ps == of_kind(slot, UnitType::Soldier),
            workers == all.take(i as int).filter(pw).len(),
            scouts == all.take(i as int).filter(pc).len(),
            soldiers == all.take(i as int).filter(ps).len(),
            workers <= i,
            scouts <= i,
            soldiers <= i,
        decreases units@.len() - i,
    {
        proof {
            assert(all.take(i + 1) =~= all.take(i as int).push(all[i as int]));
            all.take(i as int).lemma_filter_push(all[i as int], pw);
            all.take(i as int).lemma_filter_push(all[i as int], pc);
            all.take(i as int).lemma_filter_push(all[i as int], ps);
        }
        let u = &units[i];
        if u.player_slot == slot {
            match u.unit_type {
                UnitType::Worker => { workers = workers + 1; },
                UnitType::Scout => { scouts = scouts + 1; },
                UnitType::Soldier => { soldiers = soldiers + 1; },
            }
        }
        i = i + 1;
    }
    assert(all.take(all.len() as int) =~= all);
    (workers, scouts, soldiers)
}

fn find_nearest_resource(rs: &Vec<ResourceNode>, from: Position) -> (r: Option<usize>)
    requires
        coord_ok(from),
        forall|k: int| 0 <= k < rs@.len() ==> coord_ok(resource_pos(#[trigger] rs@[k]@)),
    ensures
        crate::state::opt_index(r) == nearest_where(resource_models(rs@), has_energy(), |q: ResourceModel| hex_dist(from, resource_pos(q))),
{
    let ghost all = resource_models(rs@);
    let ghost key = |q: ResourceModel| hex_dist(from, resource_pos(q));
    let ghost p = has_energy();
    let mut best: Option<usize> = None;
    let mut best_key: u32 = 0;
    let mut i: usize = 0;
    while i < rs.len()
        invariant
            0 <= i <= rs@.len(),
            coord_ok(from),
            forall|k: int| 0 <= k < rs@.len() ==> coord_ok(resource_pos(#[trigger] rs@[k]@)),
            all == resource_models(rs@),
            key == (|q: ResourceModel| hex_dist(from, resource_pos(q))),
            p == has_energy(),
            crate::state::opt_index(best) == nearest_where(all.take(i as int), p, key),
            best matches Some(b) ==> b < i && best_key == key(all[b as int]),
        decreases rs@.len() - i,
    {
        proof {
            assert(all.take(i + 1).drop_last() =~= all.take(i as int));
            assert(all.take(i + 1)[i as int] == all[i as int]);
            assert(coord_ok(resource_pos(rs@[i as int]@)));
            match best {
                Some(b) => { assert(all.take(i as int)[b as int] == all[b as int]); assert(all.take(i + 1)[b as int] == all[b as int]); },
                None => {},
            }
        }
        if rs[i].remaining > 0 {
            let d = hex_distance(from, Position::new(rs[i].x, rs[i].y));
            let better = match best {
                Some(_) => d < best_key,
                None => true,
            };
            if better {
                best = Some(i);
                best_key = d;
            }
        }
        i = i + 1;
    }
    assert(all.take(all.len() as int) =~= all);
    best
}

fn find_nearest_enemy_base(bs: &Vec<Building>, slot: u8, home_pos: Option<Position>, Ghost(w): Ghost<World>) -> (r: Option<usize>)
    requires
        w.buildings == building_models(bs@),
        home_pos == home(w, slot),
        home_pos matches Some(h) ==> coord_ok(h),
        forall|k: int| 0 <= k < bs@.len() ==> coord_ok(building_pos(#[trigger] bs@[k]@)),
    ensures
        crate::state::opt_index(r) == nearest_enemy_base(w, slot),
{
    let ghost all = w.buildings;
    let ghost key = base_distance(w, slot);
    let ghost p = enemy_base(slot);
    let mut best: Option<usize> = None;
    let mut best_key: u32 = 0;
    let mut i: usize = 0;
    while i < bs.len()
        invariant
            0 <= i <= bs@.len(),
            all == building_models(bs@),
            home_pos == home(w, slot),
            home_pos matches Some(h) ==> coord_ok(h),
            forall|k: int| 0 <= k < bs@.len() ==> coord_ok(building_pos(#[trigger] bs@[k]@)),
            w.buildings == all,
            key == base_distance(w, slot),
            p == enemy_base(slot),
            crate::state::opt_index(best) == nearest_where(all.take(i as int), p, key),
            best matches Some(b) ==> b < i && best_key == key(all[b as int]),
        decreases bs@.len() - i,
    {
        proof {
            assert(all.take(i + 1).drop_last() =~= all.take(i as int));
            assert(all.take(i + 1)[i as int] == all[i as int]);
            assert(coord_ok(building_pos(bs@[i as int]@)));
            match best {
                Some(b) => { assert(all.take(i + 1)[b as int] == all[b as int]); },
                None => {},
            }
        }
        if bs[i].player_slot != slot && bs[i].building_type == BuildingType::Base {
            let d = match home_pos {
                Some(h) => hex_distance(h, Position::new(bs[i].x, bs[i].y)),
                None => 0,
            };
            let better = match best {
                Some(_) => d < best_key,
                None => true,
            };
            if better {
                best = Some(i);
                best_key = d;
            }
        }
        i = i + 1;
    }
    assert(all.take(all.len() as int) =~= all);
    best
}

fn find_nearest_enemy_unit(units: &Vec<Unit>, slot: u8, from: Position) -> (r: Option<usize>)
    requires
        coord_ok(from),
        forall|k: int| 0 <= k < units@.len() ==> coord_ok(unit_pos(#[trigger] units@[k]@)),
    ensures
        crate::state::opt_index(r) == nearest_where(unit_models(units@), enemy_unit(slot), |u: UnitModel| hex_dist(from, unit_pos(u))),
{
    let ghost all = unit_models(units@);
    let ghost key = |u: UnitModel| hex_dist(from, unit_pos(u));
    let ghost p = enemy_unit(slot);
    let mut best: Option<usize> = None;
    let mut best_key: u32 = 0;
    let mut i: usize = 0;
    while i < units.len()
        invariant
            0 <= i <= units@.len(),
            coord_ok(from),
            forall|k: int| 0 <= k < units@.len() ==> coord_ok(unit_pos(#[trigger] units@[k]@)),
            all == unit_models(units@),
            key == (|u: UnitModel| hex_dist(from, unit_pos(u))),
            p == enemy_unit(slot),
            crate::state::opt_index(best) == nearest_where(all.take(i as int), p, key),
            best matches Some(b) ==> b < i && best_key == key(all[b as int]),
        decreases units@.len() - i,
    {
        proof {
            assert(all.take(i + 1).drop_last() =~= all.take(i as int));
            assert(all.take(i + 1)[i as int] == all[i as int]);
            assert(coord_ok(unit_pos(units@[i as int]@)));
            match best {
                Some(b) => { assert(all.take(i + 1)[b as int] == all[b as int]); },
                None => {},
            }
        }
        if units[i].player_slot != slot {
            let d = hex_distance(from, Position::new(units[i].x, units[i].y));
            let better = match best {
                Some(_) => d < best_key,
                None => true,
            };
            if better {
                best = Some(i);
                best_key = d;
            }
        }
        i = i + 1;
    }
    assert(all.take(all.len() as int) =~= all);
    best
}

fn push_harvest_orders(cmds: &mut Vec<Command>, units: &Vec<Unit>, slot: u8, resource_id: &String)
    ensures
        command_models(final(cmds)@) == command_models(old(cmds)@) + unit_models(units@).filter(idle_of_kind(slot, UnitType::Worker))
            .map_values(|u: UnitModel| CommandModel::Harvest { player_slot: slot, unit_id: u.id, resource_id: resource_id@ }),
{
    let ghost all = unit_models(units@);
    let ghost p = idle_of_kind(slot, UnitType::Worker);
    let ghost f = |u: UnitModel| CommandModel::Harvest { player_slot: slot, unit_id: u.id, resource_id: resource_id@ };
    let ghost start = command_models(cmds@);
    let mut i: usize = 0;
    while i < units.len()
        invariant
            0 <= i <= units@.len(),
            all == unit_models(units@),
            p == idle_of_kind(slot, UnitType::Worker),
            f == (|u: UnitModel| CommandModel::Harvest { player_slot: slot, unit_id: u.id, resource_id: resource_id@ }),
            command_models(cmds@) == start + all.take(i as int).filter(p).map_values(f),
        decreases units@.len() - i,
    {
        proof { lemma_filter_map_step(all, i as int, p, f); }
        let ghost before = cmds@;
        let u = &units[i];
        if u.player_slot == slot && u.unit_type == UnitType::Worker && u.status == UnitStatus::Idle {
            cmds.push(Command::Harvest { player_slot: slot, unit_id: u.id.clone(), resource_id: resource_id.clone() });
            assert(command_models(cmds@) =~= command_models(before).push(f(all[i as int])));
        }
        assert(command_models(cmds@) =~= start + all.take(i + 1).filter(p).map_values(f));
        i = i + 1;
    }
    assert(all.take(all.len() as int) =~= all);
}

fn push_scout_orders(cmds: &mut Vec<Command>, s: &GameState, slot: u8, target: Option<(i32, i32)>, Ghost(w): Ghost<World>)
    requires
        w == world(s),
        target == (if nearest_enemy_base(w, slot) >= 0 {
            Some((clamp(w.buildings[nearest_enemy_base(w, slot)].x + 3, 0, s.map_width - 1) as i32,
                clamp(w.buildings[nearest_enemy_base(w, slot)].y + 3, 0, s.map_height - 1) as i32))
        } else {
            None::<(i32, i32)>
        }),
    ensures
        command_models(final(cmds)@) == command_models(old(cmds)@) + scout_part(w, slot, s.map_width, s.map_height),
{
    let ghost all = w.units;
    let ghost p = idle_of_kind(slot, UnitType::Scout);
    let ghost f = |u: UnitModel| scout_order(w, slot, s.map_width, s.map_height, u);
    let ghost start = command_models(cmds@);
    let mut i: usize = 0;
    while i < s.units.len()
        invariant
            0 <= i <= s.units@.len(),
            w == world(s),
            all == w.units,
            p == idle_of_kind(slot, UnitType::Scout),
            f == (|u: UnitModel| scout_order(w, slot, s.map_width, s.map_height, u)),
            target == (if nearest_enemy_base(w, slot) >= 0 {
                Some((clamp(w.buildings[nearest_enemy_base(w, slot)].x + 3, 0, s.map_width - 1) as i32,
                    clamp(w.buildings[nearest_enemy_base(w, slot)].y + 3, 0, s.map_height - 1) as i32))
            } else {
                None::<(i32, i32)>
            }),
            command_models(cmds@) == start + all.take(i as int).filter(p).map_values(f),
        decreases s.units@.len() - i,
    {
        proof { lemma_filter_map_step(all, i as int, p, f); }
        let ghost before = cmds@;
        let u = &s.units[i];
        if u.player_slot == slot && u.unit_type == UnitType::Scout && u.status == UnitStatus::Idle {
            let (tx, ty) = match target {
                Some(t) => t,
                None => (16, 16),
            };
            cmds.push(Command::MoveUnit { player_slot: slot, unit_id: u.id.clone(), target_x: tx, target_y: ty });
            assert(command_models(cmds@) =~= command_models(before).push(f(all[i as int])));
        }
        assert(command_models(cmds@) =~= start + all.take(i + 1).filter(p).map_values(f));
        i = i + 1;
    }
    assert(all.take(all.len() as int) =~= all);
}

fn push_soldier_orders(cmds: &mut Vec<Command>, s: &GameState, slot: u8, enemy_base_id: Option<&String>, Ghost(w): Ghost<World>)
    requires
        w == world(s),
        positions_ok(w),
        nearest_enemy_base(w, slot) >= 0 ==> (enemy_base_id matches Some(id) && id@ == w.buildings[nearest_enemy_base(w, slot)].id),
        nearest_enemy_base(w, slot) < 0 ==> enemy_base_id is None,
    ensures
        command_models(final(cmds)@) == command_models(old(cmds)@) + soldier_part(w, slot),
{
    let ghost all = w.units;
    let ghost p = idle_of_kind(slot, UnitType::Soldier);
    let ghost f = |u: UnitModel| soldier_order(w, slot, u);
    let ghost start = command_models(cmds@);
    let mut i: usize = 0;
    while i < s.units.len()
        invariant
            0 <= i <= s.units@.len(),
            w == world(s),
            positions_ok(w),
            all == w.units,
            p == idle_of_kind(slot, UnitType::Soldier),
            f == (|u: UnitModel| soldier_order(w, slot, u)),
            nearest_enemy_base(w, slot) >= 0 ==> (enemy_base_id matches Some(id) && id@ == w.buildings[nearest_enemy_base(w, slot)].id),
            nearest_enemy_base(w, slot) < 0 ==> enemy_base_id is None,
            command_models(cmds@) == start + all.take(i as int).filter(p).map_values(f),
        decreases s.units@.len() - i,
    {
        proof { lemma_filter_map_step(all, i as int, p, f); }
        let ghost before = cmds@;
        let u = &s.units[i];
        if u.player_slot == slot && u.unit_type == UnitType::Soldier && u.status == UnitStatus::Idle {
            proof {
                assert(coord_ok(unit_pos(all[i as int])));
                assert forall|k: int| 0 <= k < s.units@.len() implies coord_ok(unit_pos(#[trigger] s.units@[k]@)) by {
                    assert(coord_ok(unit_pos(all[k])));
                }
            }
            let here = Position::new(u.x, u.y);
            let nearest = find_nearest_enemy_unit(&s.units, slot, here);
            proof { lemma_nearest_where_props(all, enemy_unit(slot), |v: UnitModel| hex_dist(here, unit_pos(v))); }
            let mut close: Option<usize> = None;
            match nearest {
                Some(n) => {
                    proof { assert(coord_ok(unit_pos(all[n as int]))); }
                    let d = hex_distance(here, Position::new(s.units[n].x, s.units[n].y));
                    if d < 10 {
                        close = Some(n);
                    }
                },
                None => {},
            }
            match close {
                Some(n) => {
                    cmds.push(Command::AttackTarget { player_slot: slot, unit_id: u.id.clone(), target_id: s.units[n].id.clone() });
                },
                None => {
                    match enemy_base_id {
                        Some(id) => {
                            cmds.push(Command::AttackTarget { player_slot: slot, unit_id: u.id.clone(), target_id: id.clone() });
                        },
                        None => {
                            cmds.push(Command::MoveUnit { player_slot: slot, unit_id: u.id.clone(), target_x: 16, target_y: 16 });
                        },
                    }
                },
            }
            assert(command_models(cmds@) =~= command_models(before).push(f(all[i as int])));
        }
        assert(command_models(cmds@) =~= start + all.take(i + 1).filter(p).map_values(f));
        i = i + 1;
    }
    assert(all.take(all.len() as int) =~= all);
}

fn clamp_i32(v: i32, lo: i32, hi: i32) -> (r: i32)
    requires
        lo <= hi,
    ensures
        r == clamp(v as int, lo as int, hi as int),
{
    if v < lo {
        lo
    } else if v > hi {
        hi
    } else {
        v
    }
}

/// The commands a bot player issues this round.
pub fn generate_bot_commands(state: &GameState, bot_slot: u8) -> (cmds: Vec<Command>)
    requires
        1 <= state.map_width <= MAX_MAP_DIM,
        1 <= state.map_height <= MAX_MAP_DIM,
        positions_ok(world(state)),
    ensures
        command_models(cmds@) == bot_commands(state, bot_slot),
{
    let ghost w = world(state);
    let mut commands: Vec<Command> = Vec::new();
    let (workers, scouts, soldiers) = count_kinds(&state.units, bot_slot);
    let base = state.get_player_base(bot_slot);
    let home_pos = match base {
        Some(b) => Some(Position::new(b.x, b.y)),
        None => None,
    };
    proof {
        lemma_first_where_props(w.buildings, |b: BuildingModel| b.player_slot == bot_slot && b.building_type == BuildingType::Base);
        if base_index(w.buildings, bot_slot) >= 0 {
            assert(coord_ok(building_pos(w.buildings[base_index(w.buildings, bot_slot)])));
        }
        assert forall|k: int| 0 <= k < state.resource_nodes@.len() implies coord_ok(resource_pos(#[trigger] state.resource_nodes@[k]@)) by {
            assert(coord_ok(resource_pos(w.resources[k])));
        }
        assert forall|k: int| 0 <= k < state.buildings@.len() implies coord_ok(building_pos(#[trigger] state.buildings@[k]@)) by {
            assert(coord_ok(building_pos(w.buildings[k])));
        }
    }
    assert(home_pos == home(w, bot_slot));
    let nearest_res = match home_pos {
        Some(h) => find_nearest_resource(&state.resource_nodes, h),
        None => None,
    };
    let enemy = find_nearest_enemy_base(&state.buildings, bot_slot, home_pos, Ghost(w));
    proof {
        lemma_nearest_where_props(w.buildings, enemy_base(bot_slot), base_distance(w, bot_slot));
        match home_pos {
            Some(h) => { lemma_nearest_where_props(w.resources, has_energy(), |r: ResourceModel| hex_dist(h, resource_pos(r))); },
            None => {},
        }
    }

    if base.is_some() {
        let unit_type = if workers < 2 {
            UnitType::Worker
        } else if scouts == 0 {
            UnitType::Scout
        } else if soldiers < 4 {
            UnitType::Soldier
        } else if workers < 4 && soldiers >= 2 {
            UnitType::Worker
        } else {
            UnitType::Soldier
        };
        commands.push(Command::SpawnUnit { player_slot: bot_slot, unit_type });
    }
    assert(command_models(commands@) =~= spawn_part(w, bot_slot));

    match nearest_res {
        Some(r) => {
            push_harvest_orders(&mut commands, &state.units, bot_slot, &state.resource_nodes[r].id);
            assert(harvest_part(w, bot_slot) =~= w.units.filter(idle_of_kind(bot_slot, UnitType::Worker))
                .map_values(|u: UnitModel| CommandModel::Harvest { player_slot: bot_slot, unit_id: u.id, resource_id: state.resource_nodes@[r as int].id@ }));
        },
        None => {},
    }
    assert(command_models(commands@) =~= spawn_part(w, bot_slot) + harvest_part(w, bot_slot));

    let target = match enemy {
        Some(e) => {
            proof { assert(coord_ok(building_pos(w.buildings[e as int]))); }
            let tx = clamp_i32(state.buildings[e].x + 3, 0, state.map_width as i32 - 1);
            let ty = clamp_i32(state.buildings[e].y + 3, 0, state.map_height as i32 - 1);
            Some((tx, ty))
        },
        None => None,
    };
    push_scout_orders(&mut commands, state, bot_slot, target, Ghost(w));
    let enemy_id = match enemy {
        Some(e) => Some(&state.buildings[e].id),
        None => None,
    };
    push_soldier_orders(&mut commands, state, bot_slot, enemy_id, Ghost(w));
    assert(command_models(commands@) =~= bot_commands(state, bot_slot));
    commands
}

/// A bot's first order, when it has a base, is a spawn chosen by how many units
/// of each kind it has: two workers first, then a scout, then soldiers up to
/// four; once four soldiers stand, workers up to four; then soldiers. Without a
/// base it orders no spawn.
pub proof fn law_bot_spawn_priorities(s: &GameState, slot: u8)
    ensures
        ({
            let us = world(s).units;
            let workers = us.filter(|u: UnitModel| u.player_slot == slot && u.unit_type == UnitType::Worker).len();
            let scouts = us.filter(|u: UnitModel| u.player_slot == slot && u.unit_type == UnitType::Scout).len();
            let soldiers = us.filter(|u: UnitModel| u.player_slot == slot && u.unit_type == UnitType::Soldier).len();
            let has_base = exists|b: int| 0 <= b < world(s).buildings.len()
                && (#[trigger] world(s).buildings[b]).player_slot == slot
                && world(s).buildings[b].building_type == BuildingType::Base;
            let cmds = bot_commands(s, slot);
            &&& has_base ==> cmds.len() >= 1
            &&& has_base && workers < 2 ==> cmds[0] == (CommandModel::SpawnUnit { player_slot: slot, unit_type: UnitType::Worker })
            &&& has_base && workers >= 2 && scouts == 0
                ==> cmds[0] == (CommandModel::SpawnUnit { player_slot: slot, unit_type: UnitType::Scout })
            &&& has_base && workers >= 2 && scouts >= 1 && soldiers < 4
                ==> cmds[0] == (CommandModel::SpawnUnit { player_slot: slot, unit_type: UnitType::Soldier })
            &&& has_base && 2 <= workers < 4 && scouts >= 1 && soldiers >= 4
                ==> cmds[0] == (CommandModel::SpawnUnit { player_slot: slot, unit_type: UnitType::Worker })
            &&& has_base && workers >= 4 && scouts >= 1 && soldiers >= 4
                ==> cmds[0] == (CommandModel::SpawnUnit { player_slot: slot, unit_type: UnitType::Soldier })
            &&& !has_base ==> forall|k: int| 0 <= k < cmds.len() ==> !(#[trigger] cmds[k] is SpawnUnit)
        }),
{
    let w = world(s);
    let bp = |b: BuildingModel| b.player_slot == slot && b.building_type == BuildingType::Base;
    lemma_first_where_props(w.buildings, bp);
    assert(of_kind(slot, UnitType::Worker) == (|u: UnitModel| u.player_slot == slot && u.unit_type == UnitType::Worker));
    assert(of_kind(slot, UnitType::Scout) == (|u: UnitModel| u.player_slot == slot && u.unit_type == UnitType::Scout));
    assert(of_kind(slot, UnitType::Soldier) == (|u: UnitModel| u.player_slot == slot && u.unit_type == UnitType::Soldier));
    let has_base = exists|b: int| 0 <= b < w.buildings.len() && (#[trigger] w.buildings[b]).player_slot == slot
        && w.buildings[b].building_type == BuildingType::Base;
    if has_base {
        let b = choose|b: int| 0 <= b < w.buildings.len() && (#[trigger] w.buildings[b]).player_slot == slot
            && w.buildings[b].building_type == BuildingType::Base;
        assert(bp(w.buildings[b]));
    } else {
        let cmds = bot_commands(s, slot);
        let rest = harvest_part(w, slot) + scout_part(w, slot, s.map_width, s.map_height) + soldier_part(w, slot);
        assert(spawn_part(w, slot) =~= Seq::<CommandModel>::empty());
        assert(cmds =~= rest);
        assert forall|k: int| 0 <= k < cmds.len() implies !(#[trigger] cmds[k] is SpawnUnit) by {
            let h = harvest_part(w, slot);
            let sc = scout_part(w, slot, s.map_width, s.map_height);
            let so = soldier_part(w, slot);
            assert(rest =~= h + sc + so);
            if k < h.len() {
                assert(cmds[k] == h[k]);
            } else if k < h.len() + sc.len() {
                assert(cmds[k] == sc[k - h.len()]);
            } else {
                assert(cmds[k] == so[k - h.len() - sc.len()]);
            }
        }
    }
}

} // verus!
