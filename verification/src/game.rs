//! The engine that runs a match tick by tick, and how a match ends.

use vstd::prelude::*;

use crate::bot_ai::{bot_commands, generate_bot_commands};
use crate::combat::{chase_paths_ok, combat_buildings, combat_units, events_upto, resolve_combat};
use crate::commands::{commands_inputs_ok, commands_spec, execute_commands, moved_unit, resolve_movement};
use crate::config::{
    Command, CommandModel, MatchConfig, PlayerConfig, PlayerKind, command_models, preset_player_count,
};
use crate::engine::{
    Building, BuildingModel, GameState, PlayerModel, Unit, World, base_index, building_models, building_ok, cargos,
    economy, energies, grid_dims, lemma_energy_bound, lemma_units_bound, player_models, player_slots, remainders,
    resource_models, resource_ok, same_frame, unit_models, world, world_ok, HP_LIMIT,
};
use crate::fog::{compute_fog, first_fog_grid, fog_grid};
use crate::harvesting::{harvest_upto, resolve_harvesting, return_paths_ok};
use crate::hex::Position;
use crate::maps::{
    MAP_SIZE, NODE_ENERGY, bases_laid, create_game_state, lemma_layout_bounds, map_config_for_preset, nodes_laid,
    players_laid, resource_layout, start_base, start_positions,
};
use crate::seqs::{
    lemma_filter_len_le, lemma_filter_map_step, lemma_first_index_props, lemma_first_where_props, lemma_sum_le_bound,
    lemma_sum_push, str_views, sum,
};
use crate::snapshot::{
    built_between, destroyed_between, energy_report, killed_between, moves_between, shows, snapshot_buildings,
    spawned_between,
};
use crate::state::{
    BuildingType, CombatEvent, CombatEventModel, GameStateView, MatchPhase, STARTING_ENERGY, StateDiff, Tile,
    UnitModel, building_view_models, combat_event_models, grid_view, unit_move_models, unit_view_models,
};

verus! {

/// A player is still in the match while it has a base.
pub open spec fn has_base(w: World, slot: u8) -> bool {
    base_index(w.buildings, slot) >= 0
}

/// Slots of the players that still have a base, in player order.
pub open spec fn alive_slots(w: World) -> Seq<u8> {
    player_slots(w.players).filter(|s: u8| has_base(w, s))
}

pub open spec fn own_base(slot: u8) -> spec_fn(BuildingModel) -> bool {
    |b: BuildingModel| b.player_slot == slot && b.building_type == BuildingType::Base
}

pub open spec fn own_unit(slot: u8) -> spec_fn(UnitModel) -> bool {
    |u: UnitModel| u.player_slot == slot
}

/// Hit points of all of a player's bases.
pub open spec fn base_hp_total(bs: Seq<BuildingModel>, slot: u8) -> int {
    sum(bs.filter(own_base(slot)).map_values(|b: BuildingModel| b.hp as int))
}

/// Number of a player's units.
pub open spec fn unit_total(us: Seq<UnitModel>, slot: u8) -> int {
    us.filter(own_unit(slot)).len() as int
}

/// A player's score when time runs out: base hit points, ten per unit, and energy.
pub open spec fn score(w: World, p: PlayerModel) -> int {
    base_hp_total(w.buildings, p.slot) + unit_total(w.units, p.slot) * 10 + p.energy
}

/// The best score among the players of `ps` that have a base, and who holds it
/// alone (`None` when it is shared or nobody has a base).
pub open spec fn leader(w: World, ps: Seq<PlayerModel>) -> (int, Option<u8>)
    decreases ps.len(),
{
    if ps.len() == 0 {
        (i32::MIN as int, None)
    } else {
        let prev = leader(w, ps.drop_last());
        let p = ps.last();
        if !has_base(w, p.slot) {
            prev
        } else if score(w, p) > prev.0 {
            (score(w, p), Some(p.slot))
        } else if score(w, p) == prev.0 {
            (prev.0, None)
        } else {
            prev
        }
    }
}

/// How a match stands after a tick: `None` while it goes on, `Some(winner)` once
/// it is over. A lone survivor wins; nobody left is a draw; when time runs out
/// with several survivors the best score wins, and a shared best is a draw.
pub open spec fn match_outcome(w: World, tick: u32, max_ticks: u32) -> Option<Option<u8>> {
    let alive = alive_slots(w);
    if alive.len() == 1 {
        Some(Some(alive[0]))
    } else if alive.len() == 0 {
        Some(None)
    } else if tick >= max_ticks {
        Some(leader(w, w.players).1)
    } else {
        None
    }
}

fn base_hp_of(bs: &Vec<Building>, slot: u8) -> (r: i32)
    requires
        bs@.len() <= 512,
        forall|k: int| 0 <= k < bs@.len() ==> building_ok(#[trigger] bs@[k]@),
    ensures
        r == base_hp_total(building_models(bs@), slot),
        -512 * HP_LIMIT <= r <= 512 * HP_LIMIT,
{
    let ghost all = building_models(bs@);
    let ghost p = own_base(slot);
    let ghost f = |b: BuildingModel| b.hp as int;
    let mut total: i32 = 0;
    let mut i: usize = 0;
    while i < bs.len()
        invariant
            0 <= i <= bs@.len(),
            bs@.len() <= 512,
            forall|k: int| 0 <= k < bs@.len() ==> building_ok(#[trigger] bs@[k]@),
            all == building_models(bs@),
            p == own_base(slot),
            f == (|b: BuildingModel| b.hp as int),
            total == sum(all.take(i as int).filter(p).map_values(f)),
            -(i as int) * HP_LIMIT <= total <= (i as int) * HP_LIMIT,
        decreases bs@.len() - i,
    {
        proof {
            lemma_filter_map_step(all, i as int, p, f);
            assert(building_ok(bs@[i as int]@));
            lemma_sum_push(all.take(i as int).filter(p).map_values(f), f(all[i as int]));
        }
        if bs[i].player_slot == slot && bs[i].building_type == BuildingType::Base {
            total = total + bs[i].hp;
        }
        i = i + 1;
    }
    assert(all.take(all.len() as int) =~= all);
    total
}

fn unit_count_of(units: &Vec<Unit>, slot: u8) -> (r: usize)
    ensures
        r == unit_total(unit_models(units@), slot),
        r <= units@.len(),
{
    let ghost all = unit_models(units@);
    let ghost p = own_unit(slot);
    let mut count: usize = 0;
    let mut i: usize = 0;
    while i < units.len()
        invariant
            0 <= i <= units@.len(),
            all == unit_models(units@),
            p == own_unit(slot),
            count == all.take(i as int).filter(p).len(),
            count <= i,
        decreases units@.len() - i,
    {
        proof {
            assert(all.take(i + 1) =~= all.take(i as int).push(all[i as int]));
            all.take(i as int).lemma_filter_push(all[i as int], p);
        }
        if units[i].player_slot == slot {
            count = count + 1;
        }
        i = i + 1;
    }
    assert(all.take(all.len() as int) =~= all);
    count
}

/// The core game engine: runs the simulation of one match.
pub struct GameEngine {
    pub state: GameState,
    pub config: MatchConfig,
    pub tick_count: u32,
    pub finished: bool,
    pub winner: Option<u8>,
    pub autopilot_slots: Vec<u8>,
}

/// Result of a single engine tick.
pub struct TickResult {
    pub diff: StateDiff,
    pub combat_events: Vec<CombatEvent>,
}

impl GameEngine {
    /// What every engine operation keeps: a well-formed state, a tick count that
    /// follows the state's tick, a clock that stops at the match's time limit
    /// (which leaves the tick counter room for one more tick), and a finished
    /// flag and winner that agree with the state's phase and winner.
    pub open spec fn wf(&self) -> bool {
        &&& self.state.wf()
        &&& self.tick_count == self.state.tick
        &&& self.config.max_ticks < u32::MAX
        &&& self.state.tick <= self.config.max_ticks + 1
        &&& !self.finished ==> self.state.tick <= self.config.max_ticks
        &&& self.finished == (self.state.phase == MatchPhase::Finished)
        &&& self.state.winner_slot == self.winner
        &&& self.winner is Some ==> self.finished
    }

    /// End the match when at most one player has a base left, or when time runs
    /// out, in which case the best score wins.
    fn check_win_conditions(&mut self)
        requires
            old(self).state.wf(),
        ensures
            final(self).config == old(self).config,
            final(self).tick_count == old(self).tick_count,
            final(self).autopilot_slots == old(self).autopilot_slots,
            final(self).state == (GameState {
                phase: final(self).state.phase,
                winner_slot: final(self).state.winner_slot,
                ..old(self).state
            }),
            match match_outcome(world(&old(self).state), old(self).state.tick, old(self).config.max_ticks) {
                None => final(self).finished == old(self).finished && final(self).winner == old(self).winner
                    && final(self).state.phase == old(self).state.phase
                    && final(self).state.winner_slot == old(self).state.winner_slot,
                Some(w) => final(self).finished && final(self).winner == w
                    && final(self).state.phase == MatchPhase::Finished
                    && final(self).state.winner_slot == w,
            },
    {
        let ghost w = world(&self.state);
        let ghost has = |s: u8| has_base(w, s);
        let mut alive: Vec<u8> = Vec::new();
        let mut i: usize = 0;
        while i < self.state.players.len()
            invariant
                0 <= i <= self.state.players@.len(),
                w == world(&self.state),
                has == (|s: u8| has_base(w, s)),
                alive@ == player_slots(w.players).take(i as int).filter(has),
            decreases self.state.players@.len() - i,
        {
            let slot = self.state.players[i].slot;
            proof {
                let ps = player_slots(w.players);
                assert(ps.take(i + 1) =~= ps.take(i as int).push(ps[i as int]));
                ps.take(i as int).lemma_filter_push(ps[i as int], has);
                lemma_first_where_props(w.buildings, own_base(slot));
                assert(own_base(slot) == (|b: BuildingModel| b.player_slot == slot && b.building_type == BuildingType::Base));
            }
            if self.state.get_player_base(slot).is_some() {
                alive.push(slot);
            }
            i = i + 1;
        }
        proof {
            let ps = player_slots(w.players);
            assert(ps.take(ps.len() as int) =~= ps);
        }
        if alive.len() == 1 {
            self.winner = Some(alive[0]);
            self.finished = true;
            self.state.phase = MatchPhase::Finished;
            self.state.winner_slot = self.winner;
        } else if alive.len() == 0 {
            self.winner = None;
            self.finished = true;
            self.state.phase = MatchPhase::Finished;
            self.state.winner_slot = None;
        } else {
            if self.state.tick >= self.config.max_ticks {
                let slot_winner = self.leading_player();
                self.winner = slot_winner;
                self.finished = true;
                self.state.phase = MatchPhase::Finished;
                self.state.winner_slot = self.winner;
            }
        }
    }

    fn leading_player(&self) -> (r: Option<u8>)
        requires
            self.state.wf(),
        ensures
            r == leader(world(&self.state), world(&self.state).players).1,
    {
        let ghost w = world(&self.state);
        proof { lemma_units_bound(w); }
        let mut best_score: i32 = i32::MIN;
        let mut best_slot: Option<u8> = None;
        let mut k: usize = 0;
        while k < self.state.players.len()
            invariant
                0 <= k <= self.state.players@.len(),
                w == world(&self.state),
                self.state.wf(),
                w.units.len() <= 671088,
                (best_score as int, best_slot) == leader(w, w.players.take(k as int)),
            decreases self.state.players@.len() - k,
        {
            let slot = self.state.players[k].slot;
            proof {
                assert(w.players.take(k + 1).drop_last() =~= w.players.take(k as int));
                lemma_first_where_props(w.buildings, own_base(slot));
                assert(own_base(slot) == (|b: BuildingModel| b.player_slot == slot && b.building_type == BuildingType::Base));
                lemma_energy_bound(w, k as int);
                assert forall|t: int| 0 <= t < self.state.buildings@.len() implies building_ok(#[trigger] self.state.buildings@[t]@) by {
                    assert(building_ok(w.buildings[t]));
                }
            }
            if self.state.get_player_base(slot).is_some() {
                let base_hp = base_hp_of(&self.state.buildings, slot);
                let unit_count = unit_count_of(&self.state.units, slot);
                let points = base_hp + (unit_count as i32) * 10 + self.state.players[k].energy;
                assert(points == score(w, w.players[k as int]));
                if points > best_score {
                    best_score = points;
                    best_slot = Some(slot);
                } else if points == best_score {
                    best_slot = None;
                }
            }
            k = k + 1;
        }
        assert(w.players.take(w.players.len() as int) =~= w.players);
        best_slot
    }
}

/// A batch of commands, run in order, takes `a` to `b`.
pub open spec fn commands_executed(a: &GameState, cs: Seq<CommandModel>, b: &GameState) -> bool {
    exists|ids: Seq<Seq<char>>, paths: Seq<Seq<Position>>|
        commands_inputs_ok(a, world(a), cs, ids, paths) && world(b) == commands_spec(world(a), cs, ids, paths)
}

/// Movement takes `a` to `b`.
pub open spec fn units_moved(a: &GameState, b: &GameState) -> bool {
    &&& unit_models(b.units@) == unit_models(a.units@).map_values(|u: UnitModel| moved_unit(a.terrain@, u))
    &&& b.buildings == a.buildings
    &&& b.resource_nodes == a.resource_nodes
    &&& b.players == a.players
}

/// A round of combat takes `a` to `b` and produces `events`.
pub open spec fn combat_resolved(a: &GameState, b: &GameState, events: Seq<CombatEventModel>) -> bool {
    &&& events == events_upto(world(a), a.units@.len() as int)
    &&& exists|paths: Seq<Seq<Position>>|
        chase_paths_ok(a, world(a), paths) && unit_models(b.units@) == combat_units(world(a), paths)
    &&& building_models(b.buildings@) == combat_buildings(world(a))
    &&& b.resource_nodes == a.resource_nodes
    &&& b.players == a.players
}

/// Harvesting takes `a` to `b`.
pub open spec fn harvest_resolved(a: &GameState, b: &GameState) -> bool {
    &&& exists|paths: Seq<Seq<Position>>|
        return_paths_ok(a, world(a), paths) && world(b) == harvest_upto(world(a), a.units@.len() as int, paths)
    &&& b.buildings == a.buildings
}

/// The rules of one tick, from the state with its commands drained (`s0`) to the
/// state after harvesting (`s4`): commands, movement, combat, harvesting.
pub open spec fn tick_phases(
    s0: &GameState,
    cs: Seq<CommandModel>,
    s1: &GameState,
    s2: &GameState,
    s3: &GameState,
    s4: &GameState,
    events: Seq<CombatEventModel>,
) -> bool {
    &&& same_frame(s1, s0)
    &&& same_frame(s2, s0)
    &&& same_frame(s3, s0)
    &&& same_frame(s4, s0)
    &&& commands_executed(s0, cs, s1)
    &&& units_moved(s1, s2)
    &&& combat_resolved(s2, s3, events)
    &&& harvest_resolved(s3, s4)
}

/// What the bots among `slots` order, each bot with a base in turn.
pub open spec fn autopilot_commands(s: &GameState, slots: Seq<u8>) -> Seq<CommandModel>
    decreases slots.len(),
{
    if slots.len() == 0 {
        Seq::empty()
    } else {
        autopilot_commands(s, slots.drop_last()) + if base_index(world(s).buildings, slots.last()) >= 0 {
            bot_commands(s, slots.last())
        } else {
            Seq::empty()
        }
    }
}

/// The commands a tick executes: those queued, then on every fifth tick the bots'.
pub open spec fn tick_commands(e: &GameEngine) -> Seq<CommandModel> {
    command_models(e.state.command_queue@) + if e.state.tick % 5 == 0 {
        autopilot_commands(&e.state, e.autopilot_slots@)
    } else {
        Seq::empty()
    }
}

fn clone_events(v: &Vec<CombatEvent>) -> (r: Vec<CombatEvent>)
    ensures
        combat_event_models(r@) == combat_event_models(v@),
{
    let mut r: Vec<CombatEvent> = Vec::new();
    let mut i: usize = 0;
    while i < v.len()
        invariant
            0 <= i <= v@.len(),
            r@.len() == i,
            forall|k: int| 0 <= k < i ==> (#[trigger] r@[k])@ == v@[k]@,
        decreases v@.len() - i,
    {
        let e = &v[i];
        r.push(CombatEvent { attacker_id: e.attacker_id.clone(), target_id: e.target_id.clone(), damage: e.damage, x: e.x, y: e.y });
        i = i + 1;
    }
    assert(combat_event_models(r@) =~= combat_event_models(v@));
    r
}

impl GameEngine {
    /// Queue a command from a player; ignored unless the match is active.
    pub fn queue_command(&mut self, cmd: Command)
        ensures
            old(self).state.phase != MatchPhase::Active ==> *final(self) == *old(self),
            old(self).state.phase == MatchPhase::Active ==> final(self).state.command_queue@ == old(self).state.command_queue@.push(cmd)
                && final(self).state == (GameState { command_queue: final(self).state.command_queue, ..old(self).state })
                && final(self).config == old(self).config
                && final(self).tick_count == old(self).tick_count
                && final(self).finished == old(self).finished
                && final(self).winner == old(self).winner
                && final(self).autopilot_slots == old(self).autopilot_slots,
    {
        if self.state.phase != MatchPhase::Active {
            return;
        }
        self.state.command_queue.push(cmd);
    }

    /// The current game state.
    pub fn state(&self) -> (s: &GameState)
        ensures
            s == &self.state,
    {
        &self.state
    }

    /// A full snapshot of the match for rendering.
    pub fn full_snapshot(&self) -> (v: GameStateView)
        ensures
            shows(&v, &self.state),
    {
        self.state.full_snapshot()
    }

    pub fn is_finished(&self) -> (b: bool)
        ensures
            b == self.finished,
    {
        self.finished
    }

    pub fn winner(&self) -> (w: Option<u8>)
        ensures
            w == self.winner,
    {
        self.winner
    }

    fn queue_autopilot(&mut self)
        requires
            old(self).state.wf(),
        ensures
            command_models(final(self).state.command_queue@)
                == command_models(old(self).state.command_queue@) + autopilot_commands(&old(self).state, old(self).autopilot_slots@),
            final(self).state == (GameState { command_queue: final(self).state.command_queue, ..old(self).state }),
            final(self).config == old(self).config,
            final(self).tick_count == old(self).tick_count,
            final(self).finished == old(self).finished,
            final(self).winner == old(self).winner,
            final(self).autopilot_slots == old(self).autopilot_slots,
    {
        let ghost e0 = *self;
        let mut k: usize = 0;
        while k < self.autopilot_slots.len()
            invariant
                0 <= k <= e0.autopilot_slots@.len(),
                e0.state.wf(),
                self.autopilot_slots == e0.autopilot_slots,
                self.state == (GameState { command_queue: self.state.command_queue, ..e0.state }),
                self.config == e0.config,
                self.tick_count == e0.tick_count,
                self.finished == e0.finished,
                self.winner == e0.winner,
                command_models(self.state.command_queue@)
                    == command_models(e0.state.command_queue@) + autopilot_commands(&e0.state, e0.autopilot_slots@.take(k as int)),
            decreases e0.autopilot_slots@.len() - k,
        {
            let slot = self.autopilot_slots[k];
            let ghost before = self.state.command_queue@;
            proof {
                assert(e0.autopilot_slots@.take(k + 1).drop_last() =~= e0.autopilot_slots@.take(k as int));
                assert(world(&self.state) == world(&e0.state));
                assert(self.state.wf());
            }
            if self.state.get_player_base(slot).is_some() {
                let mut cmds = generate_bot_commands(&self.state, slot);
                assert(bot_commands(&self.state, slot) == bot_commands(&e0.state, slot));
                self.state.command_queue.append(&mut cmds);
                assert(command_models(self.state.command_queue@) =~= command_models(before) + bot_commands(&e0.state, slot));
            } else {
                assert(command_models(self.state.command_queue@) =~= command_models(before) + Seq::<CommandModel>::empty());
            }
            k = k + 1;
        }
        assert(e0.autopilot_slots@.take(e0.autopilot_slots@.len() as int) =~= e0.autopilot_slots@);
    }
}

impl GameEngine {
    /// Run one tick: the bots order (every fifth tick), the queued commands run,
    /// then movement, combat, harvesting and fog; the match may end; the tick
    /// reports what changed. A finished match does nothing and reports nothing.
    pub fn tick(&mut self) -> (r: TickResult)
        requires
            old(self).wf(),
        ensures
            final(self).wf(),
            final(self).config == old(self).config,
            final(self).autopilot_slots == old(self).autopilot_slots,
            r.diff.tick == old(self).state.tick,
            old(self).finished ==> *final(self) == *old(self)
                && r.diff.units_moved@.len() == 0
                && r.diff.units_spawned@.len() == 0
                && r.diff.units_killed@.len() == 0
                && r.diff.buildings_built@.len() == 0
                && r.diff.buildings_destroyed@.len() == 0
                && r.diff.combat_events@.len() == 0
                && r.diff.resources_changed@.len() == 0
                && r.diff.visibility_updates@.len() == 0
                && r.diff.msg_type is None
                && r.combat_events@.len() == 0,
            !old(self).finished ==> exists|s0: GameState, s1: GameState, s2: GameState, s3: GameState, s4: GameState,
                events: Seq<CombatEventModel>| {
                &&& #[trigger] tick_phases(&s0, tick_commands(old(self)), &s1, &s2, &s3, &s4, events)
                &&& world(&s0) == world(&old(self).state)
                &&& s0.terrain == old(self).state.terrain
                &&& s0.map_width == old(self).state.map_width
                &&& s0.map_height == old(self).state.map_height
                &&& s0.visibility == old(self).state.visibility
                &&& world(&final(self).state) == world(&s4)
                &&& final(self).state.visibility@.len() >= s4.players@.len()
                &&& forall|p: int| 0 <= p < s4.players@.len() ==>
                    grid_view(#[trigger] final(self).state.visibility@[p]@) == fog_grid(&s4, p)
                &&& match match_outcome(world(&s4), old(self).state.tick, old(self).config.max_ticks) {
                    None => !final(self).finished && final(self).winner == old(self).winner
                        && final(self).state.phase == old(self).state.phase
                        && final(self).state.winner_slot == old(self).state.winner_slot,
                    Some(w) => final(self).finished && final(self).winner == w
                        && final(self).state.phase == MatchPhase::Finished
                        && final(self).state.winner_slot == w,
                }
                &&& combat_event_models(r.combat_events@) == events
                &&& combat_event_models(r.diff.combat_events@) == events
            },
            !old(self).finished ==> {
                &&& final(self).state.tick == old(self).state.tick + 1
                &&& final(self).state.map_width == old(self).state.map_width
                &&& final(self).state.map_height == old(self).state.map_height
                &&& final(self).state.terrain == old(self).state.terrain
                &&& final(self).state.command_queue@.len() == 0
                &&& unit_models(final(self).state.snapshot_units@) == unit_models(old(self).state.units@)
                &&& building_models(final(self).state.snapshot_buildings@) == building_models(old(self).state.buildings@)
                &&& unit_move_models(r.diff.units_moved@)
                    == moves_between(unit_models(old(self).state.units@), unit_models(final(self).state.units@))
                &&& unit_view_models(r.diff.units_spawned@)
                    == spawned_between(unit_models(old(self).state.units@), unit_models(final(self).state.units@))
                &&& str_views(r.diff.units_killed@)
                    == killed_between(unit_models(old(self).state.units@), unit_models(final(self).state.units@))
                &&& building_view_models(r.diff.buildings_built@)
                    == built_between(building_models(old(self).state.buildings@), building_models(final(self).state.buildings@))
                &&& str_views(r.diff.buildings_destroyed@)
                    == destroyed_between(building_models(old(self).state.buildings@), building_models(final(self).state.buildings@))
                &&& r.diff.resources_changed@ == energy_report(player_models(final(self).state.players@))
                &&& r.diff.visibility_updates@.len() == 0
                &&& r.diff.msg_type is None
            },
    {
        if self.finished {
            return TickResult {
                diff: StateDiff {
                    tick: self.state.tick,
                    units_moved: Vec::new(),
                    units_spawned: Vec::new(),
                    units_killed: Vec::new(),
                    buildings_built: Vec::new(),
                    buildings_destroyed: Vec::new(),
                    combat_events: Vec::new(),
                    resources_changed: Vec::new(),
                    visibility_updates: Vec::new(),
                    msg_type: None,
                },
                combat_events: Vec::new(),
            };
        }
        let ghost e0 = *self;
        self.state.snapshot_for_diff();
        let ghost e1 = *self;
        if self.state.tick % 5 == 0 {
            self.queue_autopilot();
        }
        proof {
            assert(world(&e1.state) == world(&e0.state));
            lemma_autopilot_frame(&e1.state, &e0.state, e0.autopilot_slots@);
            assert(command_models(self.state.command_queue@) == tick_commands(&e0));
        }
        let mut queued: Vec<Command> = Vec::new();
        std::mem::swap(&mut queued, &mut self.state.command_queue);
        let ghost s0 = self.state;
        execute_commands(&mut self.state, queued);
        let ghost s1 = self.state;
        resolve_movement(&mut self.state);
        let ghost s2 = self.state;
        let combat_events = resolve_combat(&mut self.state);
        let ghost s3 = self.state;
        resolve_harvesting(&mut self.state);
        let ghost s4 = self.state;
        compute_fog(&mut self.state);
        let ghost s5 = self.state;
        self.check_win_conditions();
        let mut diff = self.state.compute_diff();
        diff.combat_events = clone_events(&combat_events);
        self.state.tick = self.state.tick + 1;
        self.tick_count = self.tick_count + 1;
        proof {
            let events = combat_event_models(combat_events@);
            assert(tick_phases(&s0, tick_commands(&e0), &s1, &s2, &s3, &s4, events));
            assert(world(&s5) == world(&s4));
        }
        TickResult { diff, combat_events }
    }
}

/// Bots order the same in two states with the same world and map size.
proof fn lemma_autopilot_frame(a: &GameState, b: &GameState, slots: Seq<u8>)
    requires
        world(a) == world(b),
        a.map_width == b.map_width,
        a.map_height == b.map_height,
    ensures
        autopilot_commands(a, slots) == autopilot_commands(b, slots),
    decreases slots.len(),
{
    if slots.len() > 0 {
        lemma_autopilot_frame(a, b, slots.drop_last());
    }
}

/// Slots of the bot players, in order.
pub open spec fn bot_slots(pcs: Seq<PlayerConfig>) -> Seq<u8> {
    pcs.filter(|p: PlayerConfig| p.kind == PlayerKind::Bot).map_values(|p: PlayerConfig| p.slot)
}

/// The first `n` players hold different slots. A match needs this: a spawn is
/// allowed when any player with the slot can pay, but is charged to the first
/// one, so with a shared slot a player's energy could be driven below zero
/// without bound.
pub open spec fn distinct_slots(pcs: Seq<PlayerConfig>, n: int) -> bool {
    forall|i: int, j: int| 0 <= i < j < n && j < pcs.len() ==> pcs[i].slot != pcs[j].slot
}

fn collect_bot_slots(pcs: &Vec<PlayerConfig>) -> (r: Vec<u8>)
    ensures
        r@ == bot_slots(pcs@),
{
    let ghost p = |q: PlayerConfig| q.kind == PlayerKind::Bot;
    let ghost f = |q: PlayerConfig| q.slot;
    let mut r: Vec<u8> = Vec::new();
    let mut i: usize = 0;
    while i < pcs.len()
        invariant
            0 <= i <= pcs@.len(),
            p == (|q: PlayerConfig| q.kind == PlayerKind::Bot),
            f == (|q: PlayerConfig| q.slot),
            r@ == pcs@.take(i as int).filter(p).map_values(f),
        decreases pcs@.len() - i,
    {
        proof { lemma_filter_map_step(pcs@, i as int, p, f); }
        if pcs[i].kind == PlayerKind::Bot {
            r.push(pcs[i].slot);
        }
        i = i + 1;
    }
    assert(pcs@.take(pcs@.len() as int) =~= pcs@);
    r
}

/// A freshly laid out match is well formed.
proof fn lemma_start_state_wf(s: &GameState, pcs: Seq<PlayerConfig>, n: int)
    requires
        s.map_width == MAP_SIZE,
        s.map_height == MAP_SIZE,
        grid_dims(s.terrain@, MAP_SIZE as int, MAP_SIZE as int),
        s.units@.len() == 0,
        s.visibility@.len() == 0,
        bases_laid(building_models(s.buildings@), start_positions(n, MAP_SIZE as int, MAP_SIZE as int), pcs),
        players_laid(player_models(s.players@), building_models(s.buildings@), pcs),
        nodes_laid(resource_models(s.resource_nodes@), resource_layout(n, MAP_SIZE as int, MAP_SIZE as int)),
        distinct_slots(pcs, n),
        1 <= n <= 8,
    ensures
        s.wf(),
{
    let w = world(s);
    let starts = start_positions(n, MAP_SIZE as int, MAP_SIZE as int);
    let layout = resource_layout(n, MAP_SIZE as int, MAP_SIZE as int);
    lemma_layout_bounds(n);
    assert forall|i: int| 0 <= i < w.buildings.len() implies building_ok(#[trigger] w.buildings[i]) by {
        assert(w.buildings[i] == start_base(pcs[i].slot, starts[i], w.buildings[i].id));
        assert(0 <= starts[i].x < MAP_SIZE);
    }
    assert forall|i: int| 0 <= i < w.resources.len() implies resource_ok(#[trigger] w.resources[i]) by {
        assert(-64 <= layout[i].x <= 64 && -64 <= layout[i].y <= 64 && layout[i].energy == NODE_ENERGY);
    }
    assert forall|i: int| 0 <= i < w.players.len() implies 0 <= #[trigger] w.players[i].energy by {
        assert(w.players[i].energy == STARTING_ENERGY);
    }
    assert forall|i: int, j: int| 0 <= i < j < w.players.len() implies w.players[i].slot != w.players[j].slot by {
        assert(w.players[i] == player_models(s.players@)[i]);
        assert(player_models(s.players@)[i].slot == pcs[i].slot);
        assert(player_models(s.players@)[j].slot == pcs[j].slot);
        assert(j < starts.len());
    }
    assert forall|i: int| 0 <= i < energies(w.players).len() implies #[trigger] energies(w.players)[i] <= STARTING_ENERGY by {
        assert(w.players[i].energy == STARTING_ENERGY);
    }
    lemma_sum_le_bound(energies(w.players), STARTING_ENERGY as int);
    assert forall|i: int| 0 <= i < remainders(w.resources).len() implies #[trigger] remainders(w.resources)[i] <= NODE_ENERGY by {
        assert(layout[i].energy == NODE_ENERGY);
    }
    lemma_sum_le_bound(remainders(w.resources), NODE_ENERGY as int);
    assert(cargos(w.units) =~= Seq::<int>::empty());
    assert(economy(w) <= 8 * 200 + 16 * 500);
}

impl GameEngine {
    /// Start a match of a preset on the given terrain: lay out bases, players and
    /// resource nodes, note which slots the autopilot plays, and compute the
    /// first fog of war.
    pub fn new(config: MatchConfig, terrain: Vec<Vec<Tile>>) -> (e: Self)
        requires
            grid_dims(terrain@, MAP_SIZE as int, MAP_SIZE as int),
            distinct_slots(config.players@, preset_player_count(config.map_preset) as int),
            config.max_ticks < u32::MAX,
        ensures
            e.wf(),
            e.config == config,
            e.tick_count == 0,
            !e.finished,
            e.winner is None,
            e.autopilot_slots@ == bot_slots(config.players@),
            e.state.phase == MatchPhase::Active,
            e.state.tick == 0,
            e.state.map_width == MAP_SIZE,
            e.state.map_height == MAP_SIZE,
            grid_view(e.state.terrain@) == grid_view(terrain@),
            e.state.units@.len() == 0,
            bases_laid(
                building_models(e.state.buildings@),
                start_positions(preset_player_count(config.map_preset) as int, MAP_SIZE as int, MAP_SIZE as int),
                config.players@,
            ),
            players_laid(player_models(e.state.players@), building_models(e.state.buildings@), config.players@),
            nodes_laid(
                resource_models(e.state.resource_nodes@),
                resource_layout(preset_player_count(config.map_preset) as int, MAP_SIZE as int, MAP_SIZE as int),
            ),
            e.state.visibility@.len() == e.state.players@.len(),
            forall|p: int| 0 <= p < e.state.players@.len() ==>
                grid_view(#[trigger] e.state.visibility@[p]@) == first_fog_grid(&e.state, p),
            e.state.command_queue@.len() == 0,
            e.state.winner_slot is None,
    {
        let ghost n = preset_player_count(config.map_preset) as int;
        let ghost tv = terrain@;
        let map_config = map_config_for_preset(&config.map_preset, terrain);
        let mut state = create_game_state(&map_config, config.players.as_slice());
        proof {
            assert(grid_view(state.terrain@).len() == state.terrain@.len());
            assert(grid_view(tv).len() == tv.len());
            assert(map_config.terrain@ == tv);
            assert forall|i: int| 0 <= i < MAP_SIZE implies (#[trigger] state.terrain@[i])@.len() == MAP_SIZE by {
                assert(grid_view(state.terrain@)[i] == grid_view(tv)[i]);
                assert(tv[i]@.len() == MAP_SIZE);
            }
            lemma_start_state_wf(&state, config.players@, n);
        }
        let autopilot_slots = collect_bot_slots(&config.players);
        let ghost s0 = state;
        compute_fog(&mut state);
        proof {
            assert forall|p: int| 0 <= p < state.players@.len() implies
                grid_view(#[trigger] state.visibility@[p]@) == first_fog_grid(&state, p) by {
                let a = fog_grid(&s0, p);
                let b = first_fog_grid(&state, p);
                assert(world(&s0) == world(&state));
                assert forall|y: int| 0 <= y < MAP_SIZE implies #[trigger] a[y] =~= b[y] by {}
                assert(a =~= b);
            }
        }
        GameEngine { state, config, tick_count: 0, finished: false, winner: None, autopilot_slots }
    }
}

/// The scores of the players with a base are all above the minimum.
pub open spec fn scores_above_min(w: World, ps: Seq<PlayerModel>) -> bool {
    forall|k: int| 0 <= k < ps.len() ==> score(w, #[trigger] ps[k]) > i32::MIN
}

pub open spec fn some_alive(w: World, ps: Seq<PlayerModel>) -> bool {
    exists|k: int| 0 <= k < ps.len() && has_base(w, #[trigger] ps[k].slot)
}

/// The leader's score is the best score of a player with a base.
proof fn lemma_leader_bound(w: World, ps: Seq<PlayerModel>)
    requires
        scores_above_min(w, ps),
    ensures
        forall|k: int| 0 <= k < ps.len() && has_base(w, #[trigger] ps[k].slot) ==> score(w, ps[k]) <= leader(w, ps).0,
        some_alive(w, ps) ==>
            exists|k: int| 0 <= k < ps.len() && has_base(w, #[trigger] ps[k].slot) && score(w, ps[k]) == leader(w, ps).0,
    decreases ps.len(),
{
    if ps.len() > 0 {
        let t = ps.drop_last();
        let i = ps.len() - 1;
        assert forall|k: int| 0 <= k < t.len() implies #[trigger] t[k] == ps[k] by {}
        assert(scores_above_min(w, t)) by {
            assert forall|k: int| 0 <= k < t.len() implies score(w, #[trigger] t[k]) > i32::MIN by {
                assert(t[k] == ps[k]);
            }
        }
        lemma_leader_bound(w, t);
        let prev = leader(w, t);
        let p = ps[i];
        let cur = leader(w, ps);
        if !some_alive(w, t) {
            lemma_leader_empty(w, t);
        }
        assert forall|k: int| 0 <= k < ps.len() && has_base(w, #[trigger] ps[k].slot) implies score(w, ps[k]) <= cur.0 by {
            if k < i {
                assert(t[k] == ps[k]);
                assert(has_base(w, t[k].slot));
            }
        }
        if some_alive(w, ps) {
            if has_base(w, p.slot) && score(w, p) >= prev.0 {
                assert(has_base(w, ps[i].slot) && score(w, ps[i]) == cur.0);
            } else {
                let k0 = choose|k: int| 0 <= k < ps.len() && has_base(w, #[trigger] ps[k].slot);
                if k0 == i {
                    assert(score(w, p) > i32::MIN);
                    assert(some_alive(w, t));
                } else {
                    assert(has_base(w, t[k0].slot));
                }
                let k1 = choose|k: int| 0 <= k < t.len() && has_base(w, #[trigger] t[k].slot) && score(w, t[k]) == prev.0;
                assert(ps[k1] == t[k1]);
                assert(has_base(w, ps[k1].slot) && score(w, ps[k1]) == cur.0);
            }
        }
    }
}

/// A named leader beats every other player with a base.
proof fn lemma_leader_unique(w: World, ps: Seq<PlayerModel>)
    requires
        scores_above_min(w, ps),
    ensures
        leader(w, ps).1 matches Some(s) ==> exists|i: int| {
            &&& 0 <= i < ps.len()
            &&& #[trigger] ps[i].slot == s
            &&& has_base(w, s)
            &&& score(w, ps[i]) == leader(w, ps).0
            &&& forall|j: int| 0 <= j < ps.len() && j != i && has_base(w, #[trigger] ps[j].slot) ==> score(w, ps[j]) < score(w, ps[i])
        },
    decreases ps.len(),
{
    if ps.len() > 0 {
        let t = ps.drop_last();
        let i = ps.len() - 1;
        assert forall|k: int| 0 <= k < t.len() implies #[trigger] t[k] == ps[k] by {}
        assert(scores_above_min(w, t)) by {
            assert forall|k: int| 0 <= k < t.len() implies score(w, #[trigger] t[k]) > i32::MIN by {
                assert(t[k] == ps[k]);
            }
        }
        lemma_leader_unique(w, t);
        lemma_leader_bound(w, t);
        let prev = leader(w, t);
        let p = ps[i];
        let cur = leader(w, ps);
        if let Some(s) = cur.1 {
            if has_base(w, p.slot) && score(w, p) > prev.0 {
                assert forall|j: int| 0 <= j < ps.len() && j != i && has_base(w, #[trigger] ps[j].slot) implies score(w, ps[j]) < score(w, ps[i]) by {
                    assert(t[j] == ps[j]);
                    assert(has_base(w, t[j].slot));
                }
                assert(ps[i].slot == s);
            } else {
                assert(prev.1 == Some(s));
                let i0 = choose|i0: int| {
                    &&& 0 <= i0 < t.len()
                    &&& #[trigger] t[i0].slot == s
                    &&& has_base(w, s)
                    &&& score(w, t[i0]) == prev.0
                    &&& forall|j: int| 0 <= j < t.len() && j != i0 && has_base(w, #[trigger] t[j].slot) ==> score(w, t[j]) < score(w, t[i0])
                };
                assert(ps[i0] == t[i0]);
                assert(ps[i0].slot == s);
                assert forall|j: int| 0 <= j < ps.len() && j != i0 && has_base(w, #[trigger] ps[j].slot) implies score(w, ps[j]) < score(w, ps[i0]) by {
                    if j < i {
                        assert(t[j] == ps[j]);
                        assert(has_base(w, t[j].slot));
                    }
                }
            }
        }
    }
}

/// Without a named leader, a player with a base that holds the best score
/// shares it with another player with a base.
proof fn lemma_leader_tie(w: World, ps: Seq<PlayerModel>, k: int)
    requires
        scores_above_min(w, ps),
        0 <= k < ps.len(),
        has_base(w, ps[k].slot),
        leader(w, ps).1 is None,
        score(w, ps[k]) == leader(w, ps).0,
    ensures
        exists|j: int| 0 <= j < ps.len() && j != k && has_base(w, #[trigger] ps[j].slot) && score(w, ps[j]) == leader(w, ps).0,
    decreases ps.len(),
{
    let t = ps.drop_last();
    let i = ps.len() - 1;
    assert forall|m: int| 0 <= m < t.len() implies #[trigger] t[m] == ps[m] by {}
    assert(scores_above_min(w, t)) by {
        assert forall|m: int| 0 <= m < t.len() implies score(w, #[trigger] t[m]) > i32::MIN by {
            assert(t[m] == ps[m]);
        }
    }
    lemma_leader_bound(w, t);
    if !some_alive(w, t) {
        lemma_leader_empty(w, t);
    }
    let prev = leader(w, t);
    let p = ps[i];
    let cur = leader(w, ps);
    assert(ps.last() == p);
    assert(cur.0 == prev.0);
    if k == i {
        assert(score(w, p) > i32::MIN);
        assert(some_alive(w, t));
        let k1 = choose|kk: int| 0 <= kk < t.len() && has_base(w, #[trigger] t[kk].slot) && score(w, t[kk]) == prev.0;
        assert(ps[k1] == t[k1] && has_base(w, ps[k1].slot) && k1 != k);
    } else if has_base(w, p.slot) && score(w, p) == prev.0 {
        assert(has_base(w, ps[i].slot) && i != k && score(w, ps[i]) == cur.0);
    } else {
        assert(t[k] == ps[k]);
        assert(has_base(w, t[k].slot));
        assert(prev.1 is None);
        lemma_leader_tie(w, t, k);
        let j = choose|j: int| 0 <= j < t.len() && j != k && has_base(w, #[trigger] t[j].slot) && score(w, t[j]) == prev.0;
        assert(ps[j] == t[j] && has_base(w, ps[j].slot));
    }
}

/// When time runs out, the best score among the players with a base wins, and a
/// shared best score is a draw: the leader's score is the best, held by a player
/// with a base; a named winner beats every other such player; with no winner,
/// every player with a base either scores below the best or shares it.
pub proof fn lemma_leader_is_best(w: World, ps: Seq<PlayerModel>)
    requires
        scores_above_min(w, ps),
    ensures
        forall|k: int| 0 <= k < ps.len() && has_base(w, #[trigger] ps[k].slot) ==> score(w, ps[k]) <= leader(w, ps).0,
        some_alive(w, ps) ==>
            exists|k: int| 0 <= k < ps.len() && has_base(w, #[trigger] ps[k].slot) && score(w, ps[k]) == leader(w, ps).0,
        leader(w, ps).1 matches Some(s) ==> exists|i: int| {
            &&& 0 <= i < ps.len()
            &&& #[trigger] ps[i].slot == s
            &&& has_base(w, s)
            &&& score(w, ps[i]) == leader(w, ps).0
            &&& forall|j: int| 0 <= j < ps.len() && j != i && has_base(w, #[trigger] ps[j].slot) ==> score(w, ps[j]) < score(w, ps[i])
        },
        leader(w, ps).1 is None ==> forall|k: int| 0 <= k < ps.len() && has_base(w, #[trigger] ps[k].slot) ==>
            score(w, ps[k]) < leader(w, ps).0
            || exists|j: int| 0 <= j < ps.len() && j != k && has_base(w, #[trigger] ps[j].slot) && score(w, ps[j]) == leader(w, ps).0,
{
    lemma_leader_bound(w, ps);
    lemma_leader_unique(w, ps);
    if leader(w, ps).1 is None {
        assert forall|k: int| 0 <= k < ps.len() && has_base(w, #[trigger] ps[k].slot) implies
            score(w, ps[k]) < leader(w, ps).0
            || exists|j: int| 0 <= j < ps.len() && j != k && has_base(w, #[trigger] ps[j].slot) && score(w, ps[j]) == leader(w, ps).0 by {
            if score(w, ps[k]) == leader(w, ps).0 {
                lemma_leader_tie(w, ps, k);
            }
        }
    }
}

/// With nobody holding a base, there is no leader and the best is the minimum.
proof fn lemma_leader_empty(w: World, ps: Seq<PlayerModel>)
    requires
        !(exists|k: int| 0 <= k < ps.len() && has_base(w, #[trigger] ps[k].slot)),
    ensures
        leader(w, ps) == (i32::MIN as int, None::<u8>),
    decreases ps.len(),
{
    if ps.len() > 0 {
        let t = ps.drop_last();
        assert forall|k: int| 0 <= k < t.len() implies !has_base(w, #[trigger] t[k].slot) by {
            assert(t[k] == ps[k]);
        }
        lemma_leader_empty(w, t);
        assert(!has_base(w, ps[ps.len() - 1].slot));
    }
}

/// The score the rules give a player when time runs out, as documented: the hit
/// points of its bases, ten for each of its living units, and its energy.
pub open spec fn documented_points(w: World, p: PlayerModel) -> int {
    sum(w.buildings.filter(|b: BuildingModel| b.player_slot == p.slot && b.building_type == BuildingType::Base)
        .map_values(|b: BuildingModel| b.hp as int))
        + 10 * w.units.filter(|u: UnitModel| u.player_slot == p.slot).len()
        + p.energy
}

proof fn lemma_sum_at_least(s: Seq<int>, c: int)
    requires
        0 <= c,
        forall|i: int| 0 <= i < s.len() ==> -c <= #[trigger] s[i],
    ensures
        -c * s.len() <= sum(s),
    decreases s.len(),
{
    if s.len() > 0 {
        lemma_sum_at_least(s.drop_last(), c);
        assert(-c * s.len() == -c * (s.len() - 1) - c) by (nonlinear_arith);
    }
}

/// In a well-formed world no player's score reaches the minimum of an `i32`.
proof fn lemma_scores_above_min(w: World)
    requires
        world_ok(w),
    ensures
        scores_above_min(w, w.players),
{
    assert forall|k: int| 0 <= k < w.players.len() implies score(w, #[trigger] w.players[k]) > i32::MIN by {
        let p = w.players[k];
        let bs = w.buildings.filter(own_base(p.slot));
        let hs = bs.map_values(|b: BuildingModel| b.hp as int);
        lemma_filter_len_le(w.buildings, own_base(p.slot));
        assert forall|i: int| 0 <= i < hs.len() implies -HP_LIMIT <= #[trigger] hs[i] by {
            assert(bs.contains(bs[i]));
            w.buildings.lemma_filter_contains_rev(own_base(p.slot), bs[i]);
            let m = choose|m: int| 0 <= m < w.buildings.len() && w.buildings[m] == bs[i];
            assert(building_ok(w.buildings[m]));
        }
        lemma_sum_at_least(hs, HP_LIMIT as int);
        assert(hs.len() == bs.len());
        assert(bs.len() <= 512);
        assert(-(HP_LIMIT as int) * hs.len() >= -(HP_LIMIT as int) * 512) by (nonlinear_arith)
            requires
                hs.len() <= 512,
        ;
        assert(base_hp_total(w.buildings, p.slot) == sum(hs));
        assert(base_hp_total(w.buildings, p.slot) >= -0x2000_0000);
        assert(unit_total(w.units, p.slot) >= 0);
        assert(p.energy >= 0);
    }
}

/// When time runs out with at least two bases standing, a player with a base
/// wins exactly when its documented score (base hit points, ten per living
/// unit, energy) is strictly above that of every other player with a base; so
/// of two players with equal bases and energy the one with more units wins.
pub proof fn law_time_limit_best_score_wins(w: World, tick: u32, max_ticks: u32, k: int)
    requires
        world_ok(w),
        tick >= max_ticks,
        alive_slots(w).len() >= 2,
        0 <= k < w.players.len(),
        has_base(w, w.players[k].slot),
    ensures
        match_outcome(w, tick, max_ticks) == Some(Some(w.players[k].slot))
            <==> (forall|j: int| 0 <= j < w.players.len() && j != k && has_base(w, #[trigger] w.players[j].slot)
                ==> documented_points(w, w.players[j]) < documented_points(w, w.players[k])),
{
    let ps = w.players;
    lemma_scores_above_min(w);
    lemma_leader_is_best(w, ps);
    assert forall|j: int| 0 <= j < ps.len() implies score(w, #[trigger] ps[j]) == documented_points(w, ps[j]) by {
        assert(own_base(ps[j].slot) == (|b: BuildingModel| b.player_slot == ps[j].slot && b.building_type == BuildingType::Base));
        assert(own_unit(ps[j].slot) == (|u: UnitModel| u.player_slot == ps[j].slot));
    }
    let best = forall|j: int| 0 <= j < ps.len() && j != k && has_base(w, #[trigger] ps[j].slot)
        ==> documented_points(w, ps[j]) < documented_points(w, ps[k]);
    if leader(w, ps).1 == Some(ps[k].slot) {
        let i = choose|i: int| {
            &&& 0 <= i < ps.len()
            &&& #[trigger] ps[i].slot == ps[k].slot
            &&& has_base(w, ps[k].slot)
            &&& score(w, ps[i]) == leader(w, ps).0
            &&& forall|j: int| 0 <= j < ps.len() && j != i && has_base(w, #[trigger] ps[j].slot) ==> score(w, ps[j]) < score(w, ps[i])
        };
        if i != k {
            if i < k {
                assert(ps[i].slot != ps[k].slot);
            } else {
                assert(ps[k].slot != ps[i].slot);
            }
        }
        assert(best);
    }
    if best {
        assert(score(w, ps[k]) <= leader(w, ps).0);
        assert(some_alive(w, ps));
        let m = choose|m: int| 0 <= m < ps.len() && has_base(w, #[trigger] ps[m].slot) && score(w, ps[m]) == leader(w, ps).0;
        if m != k {
            assert(score(w, ps[m]) < score(w, ps[k]));
        }
        assert(score(w, ps[k]) == leader(w, ps).0);
        match leader(w, ps).1 {
            Some(s) => {
                let i = choose|i: int| {
                    &&& 0 <= i < ps.len()
                    &&& #[trigger] ps[i].slot == s
                    &&& has_base(w, s)
                    &&& score(w, ps[i]) == leader(w, ps).0
                    &&& forall|j: int| 0 <= j < ps.len() && j != i && has_base(w, #[trigger] ps[j].slot) ==> score(w, ps[j]) < score(w, ps[i])
                };
                if i != k {
                    assert(score(w, ps[k]) < score(w, ps[i]));
                }
            },
            None => {
                let j = choose|j: int| 0 <= j < ps.len() && j != k && has_base(w, #[trigger] ps[j].slot) && score(w, ps[j]) == leader(w, ps).0;
                assert(documented_points(w, ps[j]) < documented_points(w, ps[k]));
            },
        }
    }
}

} // verus!
