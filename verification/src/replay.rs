//! What a spectator rebuilds from diffs: a snapshot brought up to date with the
//! diff of a tick shows the units of the new state.

use vstd::prelude::*;

use crate::engine::{BuildingModel, GameState, PlayerModel, building_ids, player_models, player_slots, unit_ids, world};
use crate::seqs::{
    first_index, lemma_filter_keep_all, lemma_filter_none, lemma_first_index_props, lemma_first_index_push, lemma_map_add,
    lemma_map_filter_commute,
};
use crate::snapshot::{
    built_between, destroyed_between, energy_report, killed_between, move_of, moves_between, slot_energy,
    snapshot_buildings, spawned_between, unit_changed,
};
use crate::state::{
    BuildingType, BuildingViewModel, UnitModel, UnitMoveModel, UnitStatus, apply_energy_changes, apply_unit_moves,
    buildings_after_diff, units_after_diff,
};

verus! {

/// No two units share an id.
pub open spec fn unique_ids(us: Seq<UnitModel>) -> bool {
    forall|i: int, j: int| 0 <= i < j < us.len() ==> us[i].id != us[j].id
}

/// What a spectator follows of a unit: its id, its cell and its status.
pub open spec fn track(u: UnitModel) -> (Seq<char>, i32, i32, UnitStatus) {
    (u.id, u.x, u.y, u.status)
}

/// The units of `u0` whose id is still among `u1`.
pub open spec fn survives(u1: Seq<UnitModel>) -> spec_fn(UnitModel) -> bool {
    |u: UnitModel| unit_ids(u1).contains(u.id)
}

/// How the units of a tick's end relate to those of its start: the units that
/// were there come first, in the order they had, and the new ones after them.
pub open spec fn kept_in_order(u0: Seq<UnitModel>, u1: Seq<UnitModel>) -> bool {
    &&& exists|n: int| #[trigger] old_then_new(u0, u1, n)
    &&& unit_ids(u1.filter(survives(u0))) == unit_ids(u0.filter(survives(u1)))
}

/// The first `n` units at a tick's end were there at its start; the rest are new.
pub open spec fn old_then_new(u0: Seq<UnitModel>, u1: Seq<UnitModel>, n: int) -> bool {
    &&& 0 <= n <= u1.len()
    &&& forall|i: int| 0 <= i < n ==> survives(u0)(#[trigger] u1[i])
    &&& forall|i: int| n <= i < u1.len() ==> !survives(u0)(#[trigger] u1[i])
}

pub open spec fn move_ids(ms: Seq<UnitMoveModel>) -> Seq<Seq<char>> {
    ms.map_values(|m: UnitMoveModel| m.id)
}

pub open spec fn distinct_moves(ms: Seq<UnitMoveModel>) -> bool {
    forall|i: int, j: int| 0 <= i < j < ms.len() ==> ms[i].id != ms[j].id
}

/// A unit after the first move of its id, if any.
pub open spec fn moved_to(u: UnitModel, ms: Seq<UnitMoveModel>) -> UnitModel {
    let t = first_index(move_ids(ms), u.id);
    if t >= 0 {
        UnitModel { x: ms[t].x, y: ms[t].y, status: ms[t].status, ..u }
    } else {
        u
    }
}

/// Moves with different ids, applied to units with different ids, each move the
/// unit of its id.
proof fn lemma_apply_moves(u0: Seq<UnitModel>, ms: Seq<UnitMoveModel>)
    requires
        unique_ids(u0),
        distinct_moves(ms),
    ensures
        apply_unit_moves(u0, ms) == u0.map_values(|u: UnitModel| moved_to(u, ms)),
    decreases ms.len(),
{
    if ms.len() > 0 {
        let d = ms.drop_last();
        let m = ms.last();
        assert(distinct_moves(d)) by {
            assert forall|i: int, j: int| 0 <= i < j < d.len() implies d[i].id != d[j].id by {
                assert(d[i] == ms[i] && d[j] == ms[j]);
            }
        }
        lemma_apply_moves(u0, d);
        let a1 = apply_unit_moves(u0, d);
        let a = apply_unit_moves(u0, ms);
        assert(unit_ids(a1) =~= unit_ids(u0));
        let j = first_index(unit_ids(a1), m.id);
        lemma_first_index_props(unit_ids(a1), m.id);
        assert(move_ids(ms) =~= move_ids(d).push(m.id));
        assert forall|t: int| 0 <= t < d.len() implies #[trigger] move_ids(d)[t] != m.id by {
            assert(d[t] == ms[t]);
        }
        lemma_first_index_props(move_ids(d), m.id);
        assert forall|k: int| 0 <= k < u0.len() implies #[trigger] a[k] == moved_to(u0[k], ms) by {
            let id = u0[k].id;
            lemma_first_index_push(move_ids(d), m.id, id);
            lemma_first_index_props(move_ids(d), id);
            assert(a1[k] == moved_to(u0[k], d));
            if id == m.id {
                assert(unit_ids(a1)[k] == m.id);
                assert(j >= 0);
                assert(u0[j].id == m.id);
                assert(j == k);
            } else {
                let t = first_index(move_ids(d), id);
                if t >= 0 {
                    assert(ms[t] == d[t]);
                }
                if j >= 0 {
                    assert(unit_ids(a1)[j] == m.id);
                    assert(j != k);
                }
            }
        }
        assert(a =~= u0.map_values(|u: UnitModel| moved_to(u, ms)));
    }
}

/// The units a tick's moves come from have different ids when the units do.
proof fn lemma_moves_distinct(u0: Seq<UnitModel>, u1: Seq<UnitModel>)
    requires
        unique_ids(u1),
    ensures
        distinct_moves(moves_between(u0, u1)),
{
    let ch = |u: UnitModel| unit_changed(u0, u);
    let f = u1.filter(ch);
    let ms = moves_between(u0, u1);
    assert(ms == f.map_values(|u: UnitModel| move_of(u)));
    assert forall|i: int, j: int| 0 <= i < j < ms.len() implies ms[i].id != ms[j].id by {
        lemma_filter_distinct(u1, ch, i, j);
    }
}

/// Two places of a filtered sequence of units with different ids hold different ids.
proof fn lemma_filter_distinct(s: Seq<UnitModel>, p: spec_fn(UnitModel) -> bool, i: int, j: int)
    requires
        unique_ids(s),
        0 <= i < j < s.filter(p).len(),
    ensures
        s.filter(p)[i].id != s.filter(p)[j].id,
    decreases s.len(),
{
    let t = s.drop_last();
    assert(unique_ids(t)) by {
        assert forall|a: int, b: int| 0 <= a < b < t.len() implies t[a].id != t[b].id by {
            assert(t[a] == s[a] && t[b] == s[b]);
        }
    }
    t.lemma_filter_push(s.last(), p);
    assert(t.push(s.last()) =~= s);
    if p(s.last()) && j == s.filter(p).len() - 1 {
        // The last kept element is the sequence's last one; the other comes from before it.
        assert(t.filter(p).contains(s.filter(p)[i])) by {
            assert(s.filter(p)[i] == t.filter(p)[i]);
        }
        t.lemma_filter_contains_rev(p, s.filter(p)[i]);
        let k = choose|k: int| 0 <= k < t.len() && t[k] == s.filter(p)[i];
        assert(s[k] == t[k]);
        assert(s.filter(p)[j] == s[s.len() - 1]);
    } else {
        assert(s.filter(p)[i] == t.filter(p)[i]);
        assert(s.filter(p)[j] == t.filter(p)[j]);
        lemma_filter_distinct(t, p, i, j);
    }
}

/// A unit that is still there shows, after the moves of the tick, the cell and
/// status it has at the tick's end.
proof fn lemma_track_moved(u0: Seq<UnitModel>, u1: Seq<UnitModel>, k: int)
    requires
        unique_ids(u0),
        unique_ids(u1),
        0 <= k < u0.len(),
        unit_ids(u1).contains(u0[k].id),
    ensures
        track(moved_to(u0[k], moves_between(u0, u1))) == track(u1[first_index(unit_ids(u1), u0[k].id)]),
{
    let u = u0[k];
    let ids1 = unit_ids(u1);
    lemma_first_index_props(ids1, u.id);
    let f = first_index(ids1, u.id);
    let v = u1[f];
    let ch = |x: UnitModel| unit_changed(u0, x);
    let filt = u1.filter(ch);
    let ms = moves_between(u0, u1);
    assert(ms == filt.map_values(|x: UnitModel| move_of(x)));
    let t = first_index(move_ids(ms), u.id);
    lemma_first_index_props(move_ids(ms), u.id);
    lemma_first_index_props(unit_ids(u0), u.id);
    assert(unit_ids(u0)[k] == u.id);
    let j0 = first_index(unit_ids(u0), u.id);
    assert(j0 == k);
    if t >= 0 {
        assert(move_ids(ms)[t] == ms[t].id);
        assert(ms[t] == move_of(filt[t]));
        assert(filt.contains(filt[t]));
        u1.lemma_filter_contains_rev(ch, filt[t]);
        let i = choose|i: int| 0 <= i < u1.len() && u1[i] == filt[t];
        assert(ids1[i] == u.id);
        assert(i == f);
    } else {
        if ch(v) {
            u1.lemma_filter_contains(ch, f);
            let t2 = choose|t2: int| 0 <= t2 < filt.len() && filt[t2] == v;
            assert(ms[t2] == move_of(filt[t2]));
            assert(move_ids(ms)[t2] == u.id);
            assert(false);
        }
        assert(!unit_changed(u0, v));
    }
}

/// An id reported killed was there at the tick's start and is gone at its end.
proof fn lemma_killed_were_there(u0: Seq<UnitModel>, u1: Seq<UnitModel>)
    ensures
        forall|x: Seq<char>| #[trigger] killed_between(u0, u1).contains(x) ==> unit_ids(u0).contains(x) && !unit_ids(u1).contains(x),
{
    let kl = killed_between(u0, u1);
    let gone = |u: UnitModel| !unit_ids(u1).contains(u.id);
    assert forall|x: Seq<char>| kl.contains(x) implies unit_ids(u0).contains(x) && !unit_ids(u1).contains(x) by {
        let t = choose|t: int| 0 <= t < kl.len() && kl[t] == x;
        let g = u0.filter(gone);
        assert(kl[t] == g[t].id);
        assert(g.contains(g[t]));
        u0.lemma_filter_contains_rev(gone, g[t]);
        u0.lemma_filter_pred(gone, t);
        let k = choose|k: int| 0 <= k < u0.len() && u0[k] == g[t];
        assert(unit_ids(u0)[k] == x);
    }
}

pub open spec fn not_killed(u0: Seq<UnitModel>, u1: Seq<UnitModel>) -> spec_fn(UnitModel) -> bool {
    |u: UnitModel| !killed_between(u0, u1).contains(u.id)
}

/// Applying the moves and dropping the killed units leaves the units still
/// there, in their order, moved.
proof fn lemma_kept_moved(u0: Seq<UnitModel>, u1: Seq<UnitModel>)
    requires
        unique_ids(u0),
        unique_ids(u1),
    ensures
        apply_unit_moves(u0, moves_between(u0, u1)).filter(not_killed(u0, u1))
            == u0.filter(survives(u1)).map_values(|u: UnitModel| moved_to(u, moves_between(u0, u1))),
        spawned_between(u0, u1).filter(not_killed(u0, u1)) == spawned_between(u0, u1),
{
    let ids1 = unit_ids(u1);
    let ms = moves_between(u0, u1);
    let kl = killed_between(u0, u1);
    let gone = |u: UnitModel| !unit_ids(u1).contains(u.id);
    let mt = |u: UnitModel| moved_to(u, ms);
    let nk = not_killed(u0, u1);
    let sp = spawned_between(u0, u1);
    lemma_moves_distinct(u0, u1);
    lemma_apply_moves(u0, ms);
    lemma_killed_were_there(u0, u1);
    assert forall|i: int| 0 <= i < u0.len() implies nk(mt(#[trigger] u0[i])) == survives(u1)(u0[i]) by {
        if !ids1.contains(u0[i].id) {
            assert(gone(u0[i]));
            u0.lemma_filter_contains(gone, i);
            let g = u0.filter(gone);
            let t = choose|t: int| 0 <= t < g.len() && g[t] == u0[i];
            assert(kl[t] == u0[i].id);
        }
    }
    lemma_map_filter_commute(u0, mt, nk, survives(u1));
    assert forall|i: int| 0 <= i < sp.len() implies nk(#[trigger] sp[i]) by {
        u1.lemma_filter_pred(|u: UnitModel| !unit_ids(u0).contains(u.id), i);
    }
    lemma_filter_keep_all(sp, nk);
}

/// The `i`th unit still there, moved, is where the `i`th unit of the front of
/// the tick's end is, with its status.
proof fn lemma_line_up_at(u0: Seq<UnitModel>, u1: Seq<UnitModel>, i: int)
    requires
        unique_ids(u0),
        unique_ids(u1),
        unit_ids(u1.filter(survives(u0))) == unit_ids(u0.filter(survives(u1))),
        0 <= i < u0.filter(survives(u1)).len(),
    ensures
        i < u1.filter(survives(u0)).len(),
        track(moved_to(u0.filter(survives(u1))[i], moves_between(u0, u1))) == track(u1.filter(survives(u0))[i]),
{
    let ids1 = unit_ids(u1);
    let kept = u0.filter(survives(u1));
    let front = u1.filter(survives(u0));
    assert(unit_ids(front).len() == front.len());
    assert(unit_ids(kept).len() == kept.len());
    let x = kept[i];
    let y = front[i];
    assert(unit_ids(kept)[i] == unit_ids(front)[i]);
    assert(kept.contains(x));
    u0.lemma_filter_contains_rev(survives(u1), x);
    u0.lemma_filter_pred(survives(u1), i);
    let k = choose|k: int| 0 <= k < u0.len() && u0[k] == x;
    lemma_track_moved(u0, u1, k);
    assert(front.contains(y));
    u1.lemma_filter_contains_rev(survives(u0), y);
    let k2 = choose|k2: int| 0 <= k2 < u1.len() && u1[k2] == y;
    lemma_first_index_props(ids1, x.id);
    assert(ids1[k2] == x.id);
}

/// The units still there, moved, line up with the front of the units at the
/// tick's end, id by id, cell by cell.
proof fn lemma_kept_line_up(u0: Seq<UnitModel>, u1: Seq<UnitModel>)
    requires
        unique_ids(u0),
        unique_ids(u1),
        unit_ids(u1.filter(survives(u0))) == unit_ids(u0.filter(survives(u1))),
    ensures
        u0.filter(survives(u1)).map_values(|u: UnitModel| moved_to(u, moves_between(u0, u1))).map_values(|u: UnitModel| track(u))
            == u1.filter(survives(u0)).map_values(|u: UnitModel| track(u)),
{
    let ms = moves_between(u0, u1);
    let mt = |u: UnitModel| moved_to(u, ms);
    let tr = |u: UnitModel| track(u);
    let kept = u0.filter(survives(u1));
    let front = u1.filter(survives(u0));
    assert(front.len() == kept.len()) by {
        assert(unit_ids(front).len() == front.len());
        assert(unit_ids(kept).len() == kept.len());
    }
    let lhs = kept.map_values(mt).map_values(tr);
    let rhs = front.map_values(tr);
    assert forall|i: int| 0 <= i < kept.len() implies #[trigger] lhs[i] == rhs[i] by {
        lemma_line_up_at(u0, u1, i);
    }
    assert(lhs =~= rhs);
}

/// The units a diff leaves are the units still there, moved, then the new ones.
proof fn lemma_replay_parts(u0: Seq<UnitModel>, u1: Seq<UnitModel>)
    requires
        unique_ids(u0),
        unique_ids(u1),
    ensures
        units_after_diff(u0, moves_between(u0, u1), spawned_between(u0, u1), killed_between(u0, u1))
            == u0.filter(survives(u1)).map_values(|u: UnitModel| moved_to(u, moves_between(u0, u1))) + spawned_between(u0, u1),
{
    let ms = moves_between(u0, u1);
    let sp = spawned_between(u0, u1);
    let kl = killed_between(u0, u1);
    let nk = not_killed(u0, u1);
    let a = apply_unit_moves(u0, ms);
    assert(nk =~= (|u: UnitModel| !kl.contains(u.id)));
    Seq::filter_distributes_over_add(a, sp, nk);
    lemma_kept_moved(u0, u1);
}

/// The units at a tick's end are those that were there, then the new ones.
proof fn lemma_end_parts(u0: Seq<UnitModel>, u1: Seq<UnitModel>)
    requires
        kept_in_order(u0, u1),
    ensures
        u1 == u1.filter(survives(u0)) + spawned_between(u0, u1),
{
    let p = survives(u0);
    let n = choose|n: int| old_then_new(u0, u1, n);
    let q = |u: UnitModel| !unit_ids(u0).contains(u.id);
    let head = u1.take(n);
    let tail = u1.skip(n);
    assert(u1 =~= head + tail);
    assert forall|i: int| 0 <= i < head.len() implies p(#[trigger] head[i]) by {
        assert(head[i] == u1[i]);
    }
    assert forall|i: int| 0 <= i < tail.len() implies !p(#[trigger] tail[i]) by {
        assert(tail[i] == u1[n + i]);
    }
    assert forall|i: int| 0 <= i < head.len() implies !q(#[trigger] head[i]) by {
        assert(p(head[i]));
    }
    assert forall|i: int| 0 <= i < tail.len() implies q(#[trigger] tail[i]) by {
        assert(!p(tail[i]));
    }
    lemma_filter_keep_all(head, p);
    lemma_filter_none(tail, p);
    lemma_filter_none(head, q);
    lemma_filter_keep_all(tail, q);
    Seq::filter_distributes_over_add(head, tail, p);
    Seq::filter_distributes_over_add(head, tail, q);
    assert(u1.filter(p) == head);
    assert(u1.filter(q) == tail);
}

/// What a spectator follows of the units at a tick's end: first the units that
/// were there, then the new ones.
proof fn lemma_end_tracked(u0: Seq<UnitModel>, u1: Seq<UnitModel>)
    requires
        kept_in_order(u0, u1),
    ensures
        u1.map_values(|u: UnitModel| track(u))
            == u1.filter(survives(u0)).map_values(|u: UnitModel| track(u)) + spawned_between(u0, u1).map_values(|u: UnitModel| track(u)),
{
    lemma_end_parts(u0, u1);
    lemma_map_add(u1.filter(survives(u0)), spawned_between(u0, u1), |u: UnitModel| track(u));
}

/// What a spectator follows of the units a diff leaves: first the units still
/// there, moved, then the new ones.
proof fn lemma_replay_tracked(u0: Seq<UnitModel>, u1: Seq<UnitModel>)
    requires
        unique_ids(u0),
        unique_ids(u1),
    ensures
        units_after_diff(u0, moves_between(u0, u1), spawned_between(u0, u1), killed_between(u0, u1))
            .map_values(|u: UnitModel| track(u))
            == u0.filter(survives(u1)).map_values(|u: UnitModel| moved_to(u, moves_between(u0, u1)))
                .map_values(|u: UnitModel| track(u)) + spawned_between(u0, u1).map_values(|u: UnitModel| track(u)),
{
    lemma_replay_parts(u0, u1);
    lemma_map_add(
        u0.filter(survives(u1)).map_values(|u: UnitModel| moved_to(u, moves_between(u0, u1))),
        spawned_between(u0, u1),
        |u: UnitModel| track(u),
    );
}

/// A snapshot taken at the start of a tick and brought up to date with the
/// tick's diff shows the units of the tick's end: the same units in the same
/// order, each in its cell with its status. It holds when no two units share an
/// id and the units that were there keep their order ahead of the new ones, as
/// a tick leaves them.
pub proof fn lemma_diff_replays_units(u0: Seq<UnitModel>, u1: Seq<UnitModel>)
    requires
        unique_ids(u0),
        unique_ids(u1),
        kept_in_order(u0, u1),
    ensures
        units_after_diff(u0, moves_between(u0, u1), spawned_between(u0, u1), killed_between(u0, u1))
            .map_values(|u: UnitModel| track(u)) == u1.map_values(|u: UnitModel| track(u)),
{
    lemma_replay_tracked(u0, u1);
    lemma_end_tracked(u0, u1);
    lemma_kept_line_up(u0, u1);
}

/// No two players share a slot.
pub open spec fn unique_slots(ps: Seq<PlayerModel>) -> bool {
    forall|i: int, j: int| 0 <= i < j < ps.len() ==> ps[i].slot != ps[j].slot
}

/// The engine's invariant gives the players different slots, as the replay
/// lemmas ask.
pub proof fn lemma_wf_unique_slots(s: &GameState)
    requires
        s.wf(),
    ensures
        unique_slots(player_models(s.players@)),
{
    assert(world(s).players == player_models(s.players@));
}

/// A diff's energy report, applied to the buildings a spectator shows, puts on
/// every base the energy of the player that owns it, and leaves every other
/// building as it was; no building moves or changes owner.
pub proof fn lemma_energy_report_shown(bs: Seq<BuildingViewModel>, ps: Seq<PlayerModel>)
    requires
        unique_slots(ps),
    ensures
        apply_energy_changes(bs, energy_report(ps)).len() == bs.len(),
        forall|i: int| 0 <= i < bs.len() ==> {
            let b = #[trigger] apply_energy_changes(bs, energy_report(ps))[i];
            let k = first_index(player_slots(ps), bs[i].player_slot);
            &&& b == BuildingViewModel { energy: b.energy, ..bs[i] }
            &&& b.energy == if bs[i].building_type == BuildingType::Base && k >= 0 {
                Some(ps[k].energy)
            } else {
                bs[i].energy
            }
        },
    decreases ps.len(),
{
    let cs = energy_report(ps);
    if ps.len() > 0 {
        let t = ps.drop_last();
        let p = ps.last();
        assert(unique_slots(t)) by {
            assert forall|i: int, j: int| 0 <= i < j < t.len() implies t[i].slot != t[j].slot by {
                assert(t[i] == ps[i] && t[j] == ps[j]);
            }
        }
        lemma_energy_report_shown(bs, t);
        assert(cs.drop_last() =~= energy_report(t));
        assert(cs.last() == (p.slot, p.energy));
        assert(player_slots(ps) =~= player_slots(t).push(p.slot));
        let prev = apply_energy_changes(bs, energy_report(t));
        assert forall|i: int| 0 <= i < bs.len() implies {
            let b = #[trigger] apply_energy_changes(bs, cs)[i];
            let k = first_index(player_slots(ps), bs[i].player_slot);
            &&& b == BuildingViewModel { energy: b.energy, ..bs[i] }
            &&& b.energy == if bs[i].building_type == BuildingType::Base && k >= 0 {
                Some(ps[k].energy)
            } else {
                bs[i].energy
            }
        } by {
            let s = bs[i].player_slot;
            lemma_first_index_push(player_slots(t), p.slot, s);
            lemma_first_index_props(player_slots(t), s);
            let k0 = first_index(player_slots(t), s);
            if k0 >= 0 {
                assert(ps[k0] == t[k0]);
                if s == p.slot {
                    assert(t[k0].slot == ps[ps.len() - 1].slot);
                    assert(false);
                }
            }
            assert(prev[i] == apply_energy_changes(bs, energy_report(t))[i]);
        }
    }
}

/// What a spectator follows of a building: its id, owner, type, cell and the
/// energy shown on it (a tick's diff reports no damage to buildings).
pub open spec fn shown_building(b: BuildingViewModel) -> (Seq<char>, u8, BuildingType, i32, i32, Option<i32>) {
    (b.id, b.player_slot, b.building_type, b.x, b.y, b.energy)
}

/// A building's id, owner, type and cell.
pub open spec fn building_key(b: BuildingModel) -> (Seq<char>, u8, BuildingType, i32, i32) {
    (b.id, b.player_slot, b.building_type, b.x, b.y)
}

/// The buildings of `b0` whose id is still among `b1`.
pub open spec fn stands(b1: Seq<BuildingModel>) -> spec_fn(BuildingModel) -> bool {
    |b: BuildingModel| building_ids(b1).contains(b.id)
}

/// A snapshot of the bases at the start of a tick, brought up to date with the
/// tick's diff, shows the bases of the tick's end: the same ones in the same
/// order, each with its owner and cell and its owner's energy. It holds when
/// no two buildings share an id, every building is a base, the tick only took
/// buildings away, and the players keep their slots, which are all different.
pub proof fn lemma_diff_replays_buildings(
    b0: Seq<BuildingModel>,
    b1: Seq<BuildingModel>,
    ps0: Seq<PlayerModel>,
    ps1: Seq<PlayerModel>,
)
    requires
        forall|i: int, j: int| 0 <= i < j < b0.len() ==> b0[i].id != b0[j].id,
        forall|i: int| 0 <= i < b0.len() ==> (#[trigger] b0[i]).building_type == BuildingType::Base,
        b1.map_values(|b: BuildingModel| building_key(b)) == b0.filter(stands(b1)).map_values(|b: BuildingModel| building_key(b)),
        unique_slots(ps1),
        player_slots(ps0) == player_slots(ps1),
    ensures
        buildings_after_diff(snapshot_buildings(b0, ps0), built_between(b0, b1), destroyed_between(b0, b1), energy_report(ps1))
            .map_values(|v: BuildingViewModel| shown_building(v))
            == snapshot_buildings(b1, ps1).map_values(|v: BuildingViewModel| shown_building(v)),
{
    let f = b0.filter(stands(b1));
    let ids0 = building_ids(b0);
    let key = |b: BuildingModel| building_key(b);
    let g0 = |b: BuildingModel| crate::snapshot::building_view(b, slot_energy(ps0, b.player_slot));
    assert(b1.len() == f.len()) by {
        assert(b1.map_values(key).len() == f.map_values(key).len());
    }
    // Every building of the end was there at the start.
    assert forall|i: int| 0 <= i < f.len() implies b0.contains(#[trigger] f[i]) by {
        assert(f.contains(f[i]));
        b0.lemma_filter_contains_rev(stands(b1), f[i]);
    }
    assert forall|i: int| 0 <= i < b1.len() implies ids0.contains(#[trigger] b1[i].id) by {
        assert(b1.map_values(key)[i] == f.map_values(key)[i]);
        assert(b0.contains(f[i]));
        let k = choose|k: int| 0 <= k < b0.len() && b0[k] == f[i];
        assert(ids0[k] == b1[i].id);
    }
    crate::seqs::lemma_filter_none(b1, |b: BuildingModel| !building_ids(b0).contains(b.id));
    let built = built_between(b0, b1);
    assert(built =~= Seq::<BuildingViewModel>::empty());
    // The diff's losses are exactly the buildings no longer standing.
    let gone = destroyed_between(b0, b1);
    let dp = |v: BuildingViewModel| !gone.contains(v.id);
    assert forall|i: int| 0 <= i < b0.len() implies dp(g0(#[trigger] b0[i])) == stands(b1)(b0[i]) by {
        let lost = b0.filter(|b: BuildingModel| !building_ids(b1).contains(b.id));
        if !stands(b1)(b0[i]) {
            b0.lemma_filter_contains(|b: BuildingModel| !building_ids(b1).contains(b.id), i);
            let k = choose|k: int| 0 <= k < lost.len() && lost[k] == b0[i];
            assert(gone[k] == b0[i].id);
        } else if gone.contains(b0[i].id) {
            let k = choose|k: int| 0 <= k < gone.len() && gone[k] == b0[i].id;
            assert(lost.contains(lost[k]));
            b0.lemma_filter_contains_rev(|b: BuildingModel| !building_ids(b1).contains(b.id), lost[k]);
            b0.lemma_filter_pred(|b: BuildingModel| !building_ids(b1).contains(b.id), k);
            let m = choose|m: int| 0 <= m < b0.len() && b0[m] == lost[k];
            assert(m == i);
        }
    }
    let v0 = snapshot_buildings(b0, ps0);
    assert(v0 =~= b0.map_values(g0));
    assert(v0 + built =~= v0);
    crate::seqs::lemma_map_filter_commute(b0, g0, dp, stands(b1));
    let w = f.map_values(g0);
    assert((v0 + built).filter(|b: BuildingViewModel| !gone.contains(b.id)) == w) by {
        assert((|b: BuildingViewModel| !gone.contains(b.id)) == dp);
    }
    lemma_energy_report_shown(w, ps1);
    let after = apply_energy_changes(w, energy_report(ps1));
    let end = snapshot_buildings(b1, ps1);
    assert forall|i: int| 0 <= i < after.len() implies shown_building(#[trigger] after[i]) == shown_building(end[i]) by {
        assert(b1.map_values(key)[i] == f.map_values(key)[i]);
        assert(b0.contains(f[i]));
        let k = choose|k: int| 0 <= k < b0.len() && b0[k] == f[i];
        assert(f[i].building_type == BuildingType::Base);
        assert(w[i] == g0(f[i]));
        crate::seqs::lemma_first_index_props(player_slots(ps1), f[i].player_slot);
    }
    assert(after.map_values(|v: BuildingViewModel| shown_building(v)) =~= end.map_values(|v: BuildingViewModel| shown_building(v)));
}

} // verus!
