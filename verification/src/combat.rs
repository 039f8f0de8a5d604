//! Combat: attackers in range strike their targets, the others close in, and
//! whatever drops to zero hit points is removed.

use vstd::prelude::*;

use crate::engine::{
    Building, BuildingModel, GameState, Unit, World, building_models, building_ok, building_pos, building_with,
    cargos, find_building, find_unit, lemma_unblocked_coord_ok, lemma_units_bound, player_slots, same_frame, unit_ids,
    unit_models, unit_ok, unit_pos, unit_with, world,
};
use crate::hex::{Position, coord_ok, hex_dist, hex_distance};
use crate::pathfinding::{find_path, path_found};
use crate::seqs::{
    lemma_filter_all, lemma_filter_len_le, lemma_filter_sum_le, lemma_first_index_le, lemma_first_index_props,
};
use crate::state::{CombatEvent, CombatEventModel, UnitModel, UnitStatus, combat_event_models, stats_of, unit_stats};

verus! {

/// What one attacker's order comes to this tick.
pub enum Strike {
    /// The target is in range: it takes the attacker's damage.
    Hit { on_unit: bool, index: int, damage: i32, at: Position },
    /// The target is out of range: the attacker walks toward it.
    Chase { to: Position },
    /// The target is gone: the attacker gives up.
    Lost,
}

pub open spec fn is_attacker(u: UnitModel) -> bool {
    u.status == UnitStatus::Attacking && u.target_id is Some
}

/// An attacker's target is looked up among units first, then buildings, by id.
pub open spec fn strike(w: World, a: UnitModel) -> Strike {
    let tid = a.target_id.unwrap();
    let st = stats_of(a.unit_type);
    let tu = unit_with(w, tid);
    let tb = building_with(w, tid);
    if tu >= 0 {
        let to = unit_pos(w.units[tu]);
        if hex_dist(unit_pos(a), to) <= st.range {
            Strike::Hit { on_unit: true, index: tu, damage: st.damage, at: to }
        } else {
            Strike::Chase { to }
        }
    } else if tb >= 0 {
        let to = building_pos(w.buildings[tb]);
        if hex_dist(unit_pos(a), to) <= st.range {
            Strike::Hit { on_unit: false, index: tb, damage: st.damage, at: to }
        } else {
            Strike::Chase { to }
        }
    } else {
        Strike::Lost
    }
}

pub open spec fn after_strike(u: UnitModel, s: Strike, path: Seq<Position>) -> UnitModel {
    match s {
        Strike::Hit { .. } => u,
        Strike::Chase { .. } => UnitModel { path, status: UnitStatus::Moving, ..u },
        Strike::Lost => UnitModel { status: UnitStatus::Idle, target_id: None, ..u },
    }
}

/// The units after the first `n` units' attack orders were carried out; an order
/// changes the first unit carrying the attacker's id.
pub open spec fn orders_upto(w: World, n: int, paths: Seq<Seq<Position>>) -> Seq<UnitModel>
    decreases n,
{
    if n <= 0 {
        w.units
    } else {
        let prev = orders_upto(w, n - 1, paths);
        let a = w.units[n - 1];
        if !is_attacker(a) {
            prev
        } else {
            let j = unit_with(w, a.id);
            prev.update(j, after_strike(prev[j], strike(w, a), paths[n - 1]))
        }
    }
}

/// The hits the first `n` units land: (on a unit?, target index, damage).
pub open spec fn hits_upto(w: World, n: int) -> Seq<(bool, int, int)>
    decreases n,
{
    if n <= 0 {
        Seq::empty()
    } else {
        let prev = hits_upto(w, n - 1);
        let a = w.units[n - 1];
        if is_attacker(a) && strike(w, a) is Hit {
            match strike(w, a) {
                Strike::Hit { on_unit, index, damage, .. } => prev.push((on_unit, index, damage as int)),
                _ => prev,
            }
        } else {
            prev
        }
    }
}

/// The combat events of the first `n` units' hits.
pub open spec fn events_upto(w: World, n: int) -> Seq<CombatEventModel>
    decreases n,
{
    if n <= 0 {
        Seq::empty()
    } else {
        let prev = events_upto(w, n - 1);
        let a = w.units[n - 1];
        if is_attacker(a) {
            match strike(w, a) {
                Strike::Hit { damage, at, .. } => prev.push(CombatEventModel {
                    attacker_id: a.id,
                    target_id: a.target_id.unwrap(),
                    damage,
                    x: at.x,
                    y: at.y,
                }),
                _ => prev,
            }
        } else {
            prev
        }
    }
}

/// Total damage the hits deal to one target.
pub open spec fn damage_to(q: Seq<(bool, int, int)>, on_unit: bool, t: int) -> int
    decreases q.len(),
{
    if q.len() == 0 {
        0
    } else {
        damage_to(q.drop_last(), on_unit, t) + if q.last().0 == on_unit && q.last().1 == t { q.last().2 } else { 0 }
    }
}

/// The units after a round of combat: orders carried out, damage dealt all at once, the dead removed.
pub open spec fn combat_units(w: World, paths: Seq<Seq<Position>>) -> Seq<UnitModel> {
    let n = w.units.len() as int;
    let o = orders_upto(w, n, paths);
    let q = hits_upto(w, n);
    Seq::new(n as nat, |t: int| UnitModel { hp: (o[t].hp - damage_to(q, true, t)) as i32, ..o[t] })
        .filter(|u: UnitModel| u.hp > 0)
}

/// The buildings after a round of combat.
pub open spec fn combat_buildings(w: World) -> Seq<BuildingModel> {
    let q = hits_upto(w, w.units.len() as int);
    Seq::new(w.buildings.len(), |t: int| BuildingModel { hp: (w.buildings[t].hp - damage_to(q, false, t)) as i32, ..w.buildings[t] })
        .filter(|b: BuildingModel| b.hp > 0)
}

/// Each attacker that closes in follows a path the pathfinder gives for its target.
pub open spec fn chase_paths_ok(s: &GameState, w: World, paths: Seq<Seq<Position>>) -> bool {
    &&& paths.len() == w.units.len()
    &&& forall|i: int| 0 <= i < w.units.len() && is_attacker(#[trigger] w.units[i]) ==>
        match strike(w, w.units[i]) {
            Strike::Chase { to } => path_found(s, unit_pos(w.units[i]), to, paths[i]),
            _ => true,
        }
}

proof fn lemma_orders_frame(w: World, n: int, paths: Seq<Seq<Position>>)
    requires
        0 <= n <= w.units.len(),
    ensures
        orders_upto(w, n, paths).len() == w.units.len(),
        forall|k: int| 0 <= k < w.units.len() ==> {
            let o = #[trigger] orders_upto(w, n, paths)[k];
            &&& o.id == w.units[k].id
            &&& o.player_slot == w.units[k].player_slot
            &&& o.unit_type == w.units[k].unit_type
            &&& o.x == w.units[k].x
            &&& o.y == w.units[k].y
            &&& o.hp == w.units[k].hp
            &&& o.max_hp == w.units[k].max_hp
            &&& o.cargo == w.units[k].cargo
        },
        forall|k: int| n <= k < w.units.len() ==> #[trigger] orders_upto(w, n, paths)[k] == w.units[k],
    decreases n,
{
    if n > 0 {
        lemma_orders_frame(w, n - 1, paths);
        let a = w.units[n - 1];
        if is_attacker(a) {
            assert(unit_ids(w.units)[n - 1] == a.id);
            lemma_first_index_le(unit_ids(w.units), a.id, n - 1);
        }
    }
}

proof fn lemma_hits_props(w: World, n: int)
    requires
        0 <= n <= w.units.len(),
    ensures
        hits_upto(w, n).len() <= n,
        forall|k: int| 0 <= k < hits_upto(w, n).len() ==> 0 <= (#[trigger] hits_upto(w, n)[k]).2 <= 20,
        forall|k: int| 0 <= k < hits_upto(w, n).len() ==> {
            let h = #[trigger] hits_upto(w, n)[k];
            &&& h.0 ==> 0 <= h.1 < w.units.len()
            &&& !h.0 ==> 0 <= h.1 < w.buildings.len()
        },
    decreases n,
{
    if n > 0 {
        lemma_hits_props(w, n - 1);
        let a = w.units[n - 1];
        lemma_first_index_props(unit_ids(w.units), a.target_id.unwrap());
        lemma_first_index_props(crate::engine::building_ids(w.buildings), a.target_id.unwrap());
    }
}

proof fn lemma_damage_bounds(q: Seq<(bool, int, int)>, on_unit: bool, t: int)
    requires
        forall|k: int| 0 <= k < q.len() ==> 0 <= (#[trigger] q[k]).2 <= 20,
    ensures
        0 <= damage_to(q, on_unit, t) <= 20 * q.len(),
    decreases q.len(),
{
    if q.len() > 0 {
        assert forall|k: int| 0 <= k < q.drop_last().len() implies 0 <= (#[trigger] q.drop_last()[k]).2 <= 20 by {
            assert(q.drop_last()[k] == q[k]);
        }
        lemma_damage_bounds(q.drop_last(), on_unit, t);
        assert(q.last() == q[q.len() - 1]);
    }
}

fn retain_living_units(units: Vec<Unit>) -> (r: Vec<Unit>)
    ensures
        unit_models(r@) == unit_models(units@).filter(|u: UnitModel| u.hp > 0),
{
    let ghost pred = |u: UnitModel| u.hp > 0;
    let ghost all = unit_models(units@);
    let mut r: Vec<Unit> = Vec::new();
    for u in it: units.into_iter()
        invariant
            all == unit_models(it.seq()),
            pred == (|u: UnitModel| u.hp > 0),
            unit_models(r@) == all.take(it.index()).filter(pred),
    {
        let ghost before = r@;
        let ghost idx = it.index();
        proof {
            assert(all.take(idx + 1) =~= all.take(idx).push(all[idx]));
            all.take(idx).lemma_filter_push(all[idx], pred);
            assert(u@ == all[idx]);
        }
        if u.hp > 0 {
            r.push(u);
            assert(unit_models(r@) =~= unit_models(before).push(all[idx]));
        }
    }
    assert(all.take(all.len() as int) =~= all);
    r
}

fn retain_standing_buildings(bs: Vec<Building>) -> (r: Vec<Building>)
    ensures
        building_models(r@) == building_models(bs@).filter(|b: BuildingModel| b.hp > 0),
{
    let ghost pred = |b: BuildingModel| b.hp > 0;
    let ghost all = building_models(bs@);
    let mut r: Vec<Building> = Vec::new();
    for b in it: bs.into_iter()
        invariant
            all == building_models(it.seq()),
            pred == (|b: BuildingModel| b.hp > 0),
            building_models(r@) == all.take(it.index()).filter(pred),
    {
        let ghost before = r@;
        let ghost idx = it.index();
        proof {
            assert(all.take(idx + 1) =~= all.take(idx).push(all[idx]));
            all.take(idx).lemma_filter_push(all[idx], pred);
            assert(b@ == all[idx]);
        }
        if b.hp > 0 {
            r.push(b);
            assert(building_models(r@) =~= building_models(before).push(all[idx]));
        }
    }
    assert(all.take(all.len() as int) =~= all);
    r
}


proof fn lemma_orders_prefix(w: World, n: int, p1: Seq<Seq<Position>>, p2: Seq<Seq<Position>>)
    requires
        0 <= n <= p1.len(),
        n <= p2.len(),
        forall|k: int| 0 <= k < n ==> p1[k] == p2[k],
    ensures
        orders_upto(w, n, p1) == orders_upto(w, n, p2),
    decreases n,
{
    if n > 0 {
        lemma_orders_prefix(w, n - 1, p1, p2);
    }
}

proof fn lemma_found_path_coords(s: &GameState, a: Position, b: Position, path: Seq<Position>)
    requires
        s.terrain_ok(),
        path_found(s, a, b, path),
    ensures
        forall|i: int| 0 <= i < path.len() ==> coord_ok(#[trigger] path[i]),
{
    assert forall|i: int| 0 <= i < path.len() implies coord_ok(#[trigger] path[i]) by {
        lemma_unblocked_coord_ok(s, path[i]);
    }
}

spec fn paths_in_range(us: Seq<UnitModel>) -> bool {
    forall|t: int, e: int| 0 <= t < us.len() && 0 <= e < us[t].path.len() ==> coord_ok(#[trigger] us[t].path[e])
}

/// Resolve a round of combat and return the hits it produced.
pub fn resolve_combat(state: &mut GameState) -> (events: Vec<CombatEvent>)
    requires
        old(state).wf(),
    ensures
        combat_event_models(events@) == events_upto(world(old(state)), old(state).units@.len() as int),
        exists|paths: Seq<Seq<Position>>|
            chase_paths_ok(old(state), world(old(state)), paths)
            && unit_models(final(state).units@) == combat_units(world(old(state)), paths),
        building_models(final(state).buildings@) == combat_buildings(world(old(state))),
        same_frame(final(state), old(state)),
        final(state).resource_nodes == old(state).resource_nodes,
        final(state).players == old(state).players,
        final(state).wf(),
{
    let ghost w0 = world(state);
    proof { lemma_units_bound(w0); }
    let n = state.units.len();
    let mut events: Vec<CombatEvent> = Vec::new();
    let mut queue: Vec<(bool, usize, i32)> = Vec::new();
    let ghost mut paths: Seq<Seq<Position>> = Seq::empty();
    assert(paths_in_range(w0.units)) by {
        assert forall|t: int, e: int| 0 <= t < w0.units.len() && 0 <= e < w0.units[t].path.len()
            implies coord_ok(#[trigger] w0.units[t].path[e]) by {
            assert(unit_ok(w0.units[t]));
        }
    }
    let mut i: usize = 0;
    while i < n
        invariant
            0 <= i <= n,
            n == w0.units.len(),
            n <= 671088,
            w0 == world(old(state)),
            old(state).wf(),
            paths.len() == i,
            state.units@.len() == n,
            unit_models(state.units@) == orders_upto(w0, i as int, paths),
            paths_in_range(unit_models(state.units@)),
            queue@.len() == hits_upto(w0, i as int).len(),
            forall|k: int| 0 <= k < queue@.len() ==>
                ((#[trigger] queue@[k]).0, queue@[k].1 as int, queue@[k].2 as int) == hits_upto(w0, i as int)[k],
            combat_event_models(events@) == events_upto(w0, i as int),
            forall|k: int| 0 <= k < i && is_attacker(#[trigger] w0.units[k]) ==>
                match strike(w0, w0.units[k]) {
                    Strike::Chase { to } => path_found(old(state), unit_pos(w0.units[k]), to, paths[k]),
                    _ => true,
                },
            same_frame(state, old(state)),
            state.buildings == old(state).buildings,
            state.resource_nodes == old(state).resource_nodes,
            state.players == old(state).players,
        decreases n - i,
    {
        let ghost cur = unit_models(state.units@);
        let ghost a = w0.units[i as int];
        proof {
            lemma_orders_frame(w0, i as int, paths);
            assert(cur[i as int] == a);
            assert(unit_ids(cur) =~= unit_ids(w0.units));
            assert(unit_ok(a));
            assert(unit_ids(w0.units)[i as int] == a.id);
            lemma_first_index_le(unit_ids(w0.units), a.id, i as int);
        }
        let attacking = state.units[i].status == UnitStatus::Attacking && state.units[i].target_id.is_some();
        let ghost path_used: Seq<Position> = Seq::empty();
        if attacking {
            let tid: String = match &state.units[i].target_id {
                Some(t) => t.clone(),
                None => String::new(),
            };
            let aid = state.units[i].id.clone();
            let apos = Position::new(state.units[i].x, state.units[i].y);
            let st = unit_stats(state.units[i].unit_type);
            proof {
                lemma_first_index_props(unit_ids(w0.units), tid@);
                lemma_first_index_props(crate::engine::building_ids(w0.buildings), tid@);
            }
            let target = match find_unit(&state.units, &tid) {
                Some(tu) => {
                    assert(unit_ok(w0.units[tu as int]));
                    Some((true, tu, Position::new(state.units[tu].x, state.units[tu].y)))
                },
                None => match find_building(&state.buildings, &tid) {
                    Some(tb) => {
                        assert(building_ok(w0.buildings[tb as int]));
                        Some((false, tb, Position::new(state.buildings[tb].x, state.buildings[tb].y)))
                    },
                    None => None,
                },
            };
            match target {
                Some((on_unit, index, tpos)) => {
                    let dist = hex_distance(apos, tpos);
                    if dist <= st.range {
                        queue.push((on_unit, index, st.damage));
                        events.push(CombatEvent { attacker_id: aid, target_id: tid, damage: st.damage, x: tpos.x, y: tpos.y });
                    } else {
                        let path = find_path(state, apos, tpos);
                        proof {
                            crate::pathfinding::lemma_path_found_frame(state, old(state), apos, tpos, path@);
                            lemma_found_path_coords(state, apos, tpos, path@);
                            path_used = path@;
                        }
                        match find_unit(&state.units, &aid) {
                            Some(j) => {
                                state.units[j].path = path;
                                state.units[j].status = UnitStatus::Moving;
                            },
                            None => {},
                        }
                    }
                },
                None => {
                    match find_unit(&state.units, &aid) {
                        Some(j) => {
                            state.units[j].status = UnitStatus::Idle;
                            state.units[j].target_id = None;
                        },
                        None => {},
                    }
                },
            }
        }
        proof {
            let paths2 = paths.push(path_used);
            lemma_orders_prefix(w0, i as int, paths, paths2);
            paths = paths2;
            assert(unit_models(state.units@) =~= orders_upto(w0, i + 1, paths));
            assert forall|t: int, e: int| 0 <= t < unit_models(state.units@).len() && 0 <= e < unit_models(state.units@)[t].path.len()
                implies coord_ok(#[trigger] unit_models(state.units@)[t].path[e]) by {
                if unit_models(state.units@)[t].path != cur[t].path {
                    assert(unit_models(state.units@)[t].path == path_used);
                }
            }
        }
        i = i + 1;
    }
    let ghost o = orders_upto(w0, n as int, paths);
    let ghost q = hits_upto(w0, n as int);
    proof {
        lemma_orders_frame(w0, n as int, paths);
        lemma_hits_props(w0, n as int);
        assert(paths_in_range(o));
    }
    let mut k: usize = 0;
    while k < queue.len()
        invariant
            0 <= k <= queue@.len(),
            n == w0.units.len(),
            n <= 671088,
            w0 == world(old(state)),
            old(state).wf(),
            o == orders_upto(w0, n as int, paths),
            q == hits_upto(w0, n as int),
            q.len() <= n,
            queue@.len() == q.len(),
            forall|j: int| 0 <= j < queue@.len() ==> ((#[trigger] queue@[j]).0, queue@[j].1 as int, queue@[j].2 as int) == q[j],
            forall|j: int| 0 <= j < q.len() ==> 0 <= (#[trigger] q[j]).2 <= 20,
            forall|j: int| 0 <= j < q.len() ==> {
                let h = #[trigger] q[j];
                &&& h.0 ==> 0 <= h.1 < w0.units.len()
                &&& !h.0 ==> 0 <= h.1 < w0.buildings.len()
            },
            o.len() == n,
            paths_in_range(o),
            forall|t: int| 0 <= t < n ==> (#[trigger] o[t]).hp == w0.units[t].hp && o[t].x == w0.units[t].x
                && o[t].y == w0.units[t].y && o[t].cargo == w0.units[t].cargo,
            state.units@.len() == n,
            state.buildings@.len() == w0.buildings.len(),
            forall|t: int| 0 <= t < n ==> #[trigger] state.units@[t]@
                == (UnitModel { hp: (o[t].hp - damage_to(q.take(k as int), true, t)) as i32, ..o[t] }),
            forall|t: int| 0 <= t < w0.buildings.len() ==> #[trigger] state.buildings@[t]@
                == (BuildingModel { hp: (w0.buildings[t].hp - damage_to(q.take(k as int), false, t)) as i32, ..w0.buildings[t] }),
            same_frame(state, old(state)),
            state.resource_nodes == old(state).resource_nodes,
            state.players == old(state).players,
        decreases queue@.len() - k,
    {
        let (on_unit, idx, dmg) = queue[k];
        proof {
            assert(q.take(k + 1).drop_last() =~= q.take(k as int));
            assert forall|j: int| 0 <= j < q.take(k as int).len() implies 0 <= (#[trigger] q.take(k as int)[j]).2 <= 20 by {
                assert(q.take(k as int)[j] == q[j]);
            }
            lemma_damage_bounds(q.take(k as int), on_unit, idx as int);
        }
        if on_unit {
            assert(unit_ok(w0.units[idx as int]));
            assert(state.units@[idx as int]@.hp == (o[idx as int].hp - damage_to(q.take(k as int), true, idx as int)) as i32);
            state.units[idx].hp = state.units[idx].hp - dmg;
        } else {
            assert(building_ok(w0.buildings[idx as int]));
            assert(state.buildings@[idx as int]@.hp == (w0.buildings[idx as int].hp - damage_to(q.take(k as int), false, idx as int)) as i32);
            state.buildings[idx].hp = state.buildings[idx].hp - dmg;
        }
        proof {
            assert forall|t: int| 0 <= t < n implies #[trigger] state.units@[t]@
                == (UnitModel { hp: (o[t].hp - damage_to(q.take(k + 1), true, t)) as i32, ..o[t] }) by {
                lemma_damage_bounds(q.take(k as int), true, t);
            }
            assert forall|t: int| 0 <= t < w0.buildings.len() implies #[trigger] state.buildings@[t]@
                == (BuildingModel { hp: (w0.buildings[t].hp - damage_to(q.take(k + 1), false, t)) as i32, ..w0.buildings[t] }) by {
                lemma_damage_bounds(q.take(k as int), false, t);
            }
        }
        k = k + 1;
    }
    assert(q.take(q.len() as int) =~= q);
    let ghost damaged = Seq::new(n as nat, |t: int| UnitModel { hp: (o[t].hp - damage_to(q, true, t)) as i32, ..o[t] });
    let ghost damaged_b = Seq::new(w0.buildings.len(), |t: int| BuildingModel { hp: (w0.buildings[t].hp - damage_to(q, false, t)) as i32, ..w0.buildings[t] });
    assert(unit_models(state.units@) =~= damaged);
    assert(building_models(state.buildings@) =~= damaged_b);
    let mut units: Vec<Unit> = Vec::new();
    std::mem::swap(&mut units, &mut state.units);
    state.units = retain_living_units(units);
    let mut bs: Vec<Building> = Vec::new();
    std::mem::swap(&mut bs, &mut state.buildings);
    state.buildings = retain_standing_buildings(bs);
    proof {
        let w1 = world(state);
        assert forall|t: int| 0 <= t < damaged.len() && (#[trigger] damaged[t]).hp > 0 implies
            unit_ok(damaged[t]) by {
            lemma_damage_bounds(q, true, t);
            assert(unit_ok(w0.units[t]));
        }
        lemma_filter_all(damaged, |u: UnitModel| u.hp > 0, |u: UnitModel| u.hp > 0 ==> unit_ok(u));
        assert forall|t: int| 0 <= t < damaged.len() implies
            player_slots(w0.players).contains((#[trigger] damaged[t]).player_slot) by {
            lemma_orders_frame(w0, n as int, paths);
            assert(o[t].player_slot == w0.units[t].player_slot);
        }
        lemma_filter_all(damaged, |u: UnitModel| u.hp > 0, |u: UnitModel| player_slots(w0.players).contains(u.player_slot));
        assert(w1.players == w0.players);
        assert forall|t: int| 0 <= t < damaged_b.len() && (#[trigger] damaged_b[t]).hp > 0 implies
            building_ok(damaged_b[t]) by {
            lemma_damage_bounds(q, false, t);
            assert(building_ok(w0.buildings[t]));
        }
        lemma_filter_all(damaged_b, |b: BuildingModel| b.hp > 0, |b: BuildingModel| b.hp > 0 ==> building_ok(b));
        lemma_filter_len_le(damaged, |u: UnitModel| u.hp > 0);
        lemma_filter_len_le(damaged_b, |b: BuildingModel| b.hp > 0);
        assert forall|t: int| 0 <= t < damaged.len() implies 0 <= (|u: UnitModel| u.cargo as int)(#[trigger] damaged[t]) by {
            assert(unit_ok(w0.units[t]));
        }
        lemma_filter_sum_le(damaged, |u: UnitModel| u.hp > 0, |u: UnitModel| u.cargo as int);
        assert(cargos(w1.units) =~= damaged.filter(|u: UnitModel| u.hp > 0).map_values(|u: UnitModel| u.cargo as int));
        assert(damaged.map_values(|u: UnitModel| u.cargo as int) =~= cargos(w0.units));
        assert(chase_paths_ok(old(state), w0, paths));
        assert(unit_models(state.units@) == combat_units(w0, paths));
    }
    events
}

/// The damage the reported combat events deal to the target with an id.
pub open spec fn event_damage(es: Seq<CombatEventModel>, id: Seq<char>) -> int
    decreases es.len(),
{
    if es.len() == 0 {
        0
    } else {
        event_damage(es.drop_last(), id) + if es.last().target_id == id { es.last().damage as int } else { 0 }
    }
}

/// No two units, no two buildings, and no unit and building share an id.
pub open spec fn ids_unique(w: World) -> bool {
    &&& forall|a: int, b: int| 0 <= a < b < w.units.len() ==> w.units[a].id != w.units[b].id
    &&& forall|a: int, b: int| 0 <= a < b < w.buildings.len() ==> w.buildings[a].id != w.buildings[b].id
    &&& forall|a: int, b: int| 0 <= a < w.units.len() && 0 <= b < w.buildings.len() ==> w.units[a].id != w.buildings[b].id
}

/// The hits the first `n` attackers land on a target deal what the events they
/// report against its id say.
proof fn lemma_hits_match_events(w: World, n: int, t: int)
    requires
        ids_unique(w),
        0 <= n <= w.units.len(),
    ensures
        0 <= t < w.buildings.len() ==> damage_to(hits_upto(w, n), false, t) == event_damage(events_upto(w, n), w.buildings[t].id),
        0 <= t < w.units.len() ==> damage_to(hits_upto(w, n), true, t) == event_damage(events_upto(w, n), w.units[t].id),
    decreases n,
{
    if n > 0 {
        lemma_hits_match_events(w, n - 1, t);
        let a = w.units[n - 1];
        let q = hits_upto(w, n - 1);
        let es = events_upto(w, n - 1);
        if is_attacker(a) {
            let tid = a.target_id.unwrap();
            let uids = unit_ids(w.units);
            let bids = crate::engine::building_ids(w.buildings);
            lemma_first_index_props(uids, tid);
            lemma_first_index_props(bids, tid);
            match strike(w, a) {
                Strike::Hit { on_unit, index, damage, at } => {
                    let h = (on_unit, index, damage as int);
                    let e = CombatEventModel { attacker_id: a.id, target_id: tid, damage, x: at.x, y: at.y };
                    assert(hits_upto(w, n) == q.push(h));
                    assert(events_upto(w, n) == es.push(e));
                    assert(q.push(h).drop_last() =~= q);
                    assert(es.push(e).drop_last() =~= es);
                    if 0 <= t < w.units.len() {
                        assert(uids[t] == w.units[t].id);
                        if on_unit && tid == w.units[t].id && index != t {
                            if index < t {
                                assert(w.units[index].id != w.units[t].id);
                            } else {
                                assert(uids[t] == tid);
                            }
                        }
                        if !on_unit && tid == w.units[t].id {
                            assert(uids[t] == tid);
                        }
                    }
                    if 0 <= t < w.buildings.len() {
                        assert(bids[t] == w.buildings[t].id);
                        if !on_unit && tid == w.buildings[t].id && index != t {
                            if index < t {
                                assert(w.buildings[index].id != w.buildings[t].id);
                            } else {
                                assert(bids[t] == tid);
                            }
                        }
                        if on_unit && tid == w.buildings[t].id {
                            assert(w.units[index].id != w.buildings[t].id);
                        }
                    }
                },
                _ => {
                    assert(hits_upto(w, n) == q);
                    assert(events_upto(w, n) == es);
                },
            }
        } else {
            assert(hits_upto(w, n) == q);
            assert(events_upto(w, n) == es);
        }
    }
}

/// Combat deals damage all at once and exactly as reported: after a round each
/// unit and building has lost the sum of the damage of the round's combat events
/// against its id (all of them, however many hit the same target), and those
/// left with no hit points are gone; the rest keep their order.
pub proof fn law_combat_damage_is_the_reported_damage(w: World, paths: Seq<Seq<Position>>)
    requires
        ids_unique(w),
    ensures
        combat_buildings(w) == Seq::new(w.buildings.len(), |t: int| BuildingModel {
            hp: (w.buildings[t].hp - event_damage(events_upto(w, w.units.len() as int), w.buildings[t].id)) as i32,
            ..w.buildings[t]
        }).filter(|b: BuildingModel| b.hp > 0),
        combat_units(w, paths) == Seq::new(w.units.len(), |t: int| UnitModel {
            hp: (w.units[t].hp - event_damage(events_upto(w, w.units.len() as int), w.units[t].id)) as i32,
            ..orders_upto(w, w.units.len() as int, paths)[t]
        }).filter(|u: UnitModel| u.hp > 0),
{
    let n = w.units.len() as int;
    let q = hits_upto(w, n);
    let es = events_upto(w, n);
    let o = orders_upto(w, n, paths);
    lemma_orders_frame(w, n, paths);
    let lb = Seq::new(w.buildings.len(), |t: int| BuildingModel { hp: (w.buildings[t].hp - damage_to(q, false, t)) as i32, ..w.buildings[t] });
    let rb = Seq::new(w.buildings.len(), |t: int| BuildingModel {
        hp: (w.buildings[t].hp - event_damage(es, w.buildings[t].id)) as i32,
        ..w.buildings[t]
    });
    assert forall|t: int| 0 <= t < w.buildings.len() implies lb[t] == rb[t] by {
        lemma_hits_match_events(w, n, t);
    }
    assert(lb =~= rb);
    let lu = Seq::new(n as nat, |t: int| UnitModel { hp: (o[t].hp - damage_to(q, true, t)) as i32, ..o[t] });
    let ru = Seq::new(w.units.len(), |t: int| UnitModel {
        hp: (w.units[t].hp - event_damage(es, w.units[t].id)) as i32,
        ..o[t]
    });
    assert forall|t: int| 0 <= t < n implies lu[t] == ru[t] by {
        lemma_hits_match_events(w, n, t);
    }
    assert(lu =~= ru);
}

} // verus!
