//! Commands players issue and the configuration a match starts from.

use vstd::prelude::*;

use crate::state::UnitType;

verus! {

/// A command issued by a player or agent during a match, as it arrives from a tool call.
pub struct GameCommand {
    pub player_slot: u8,
    pub tool_name: String,
    pub tool_input: serde_json::Value,
}

/// Strongly-typed command variants for the engine.
pub enum Command {
    SpawnUnit { player_slot: u8, unit_type: UnitType },
    MoveUnit { player_slot: u8, unit_id: String, target_x: i32, target_y: i32 },
    AttackTarget { player_slot: u8, unit_id: String, target_id: String },
    Harvest { player_slot: u8, unit_id: String, resource_id: String },
}

pub enum CommandModel {
    SpawnUnit { player_slot: u8, unit_type: UnitType },
    MoveUnit { player_slot: u8, unit_id: Seq<char>, target_x: i32, target_y: i32 },
    AttackTarget { player_slot: u8, unit_id: Seq<char>, target_id: Seq<char> },
    Harvest { player_slot: u8, unit_id: Seq<char>, resource_id: Seq<char> },
}

impl View for Command {
    type V = CommandModel;

    open spec fn view(&self) -> CommandModel {
        match self {
            Command::SpawnUnit { player_slot, unit_type } => CommandModel::SpawnUnit {
                player_slot: *player_slot,
                unit_type: *unit_type,
            },
            Command::MoveUnit { player_slot, unit_id, target_x, target_y } => CommandModel::MoveUnit {
                player_slot: *player_slot,
                unit_id: unit_id@,
                target_x: *target_x,
                target_y: *target_y,
            },
            Command::AttackTarget { player_slot, unit_id, target_id } => CommandModel::AttackTarget {
                player_slot: *player_slot,
                unit_id: unit_id@,
                target_id: target_id@,
            },
            Command::Harvest { player_slot, unit_id, resource_id } => CommandModel::Harvest {
                player_slot: *player_slot,
                unit_id: unit_id@,
                resource_id: resource_id@,
            },
        }
    }
}

pub open spec fn command_models(s: Seq<Command>) -> Seq<CommandModel> {
    s.map_values(|c: Command| c@)
}

/// Predefined map layouts.
#[derive(Clone, Copy, Debug, PartialEq, Eq, Structural)]
pub enum MapPreset {
    Duel,
    TwoVTwo,
    FreeForAll4,
    FreeForAll8,
}

pub open spec fn preset_player_count(p: MapPreset) -> usize {
    match p {
        MapPreset::Duel => 2,
        MapPreset::TwoVTwo => 4,
        MapPreset::FreeForAll4 => 4,
        MapPreset::FreeForAll8 => 8,
    }
}

impl MapPreset {
    pub fn player_count(&self) -> (n: usize)
        ensures
            n == preset_player_count(*self),
    {
        match self {
            MapPreset::Duel => 2,
            MapPreset::TwoVTwo | MapPreset::FreeForAll4 => 4,
            MapPreset::FreeForAll8 => 8,
        }
    }
}

impl Default for MapPreset {
    fn default() -> (p: Self)
        ensures
            p == MapPreset::Duel,
    {
        MapPreset::Duel
    }
}

/// The type of player occupying a slot.
#[derive(Clone, Copy, Debug, PartialEq, Eq, Structural)]
pub enum PlayerKind {
    Human,
    Bot,
    McpAgent,
}

/// Player slot configuration.
pub struct PlayerConfig {
    pub slot: u8,
    pub kind: PlayerKind,
    pub name: String,
}

/// Match configuration.
pub struct MatchConfig {
    pub map_preset: MapPreset,
    pub players: Vec<PlayerConfig>,
    pub max_ticks: u32,
    pub tick_rate_ms: u32,
}

impl Default for MatchConfig {
    fn default() -> (c: Self)
        ensures
            c.map_preset == MapPreset::Duel,
            c.players@.len() == 0,
            c.max_ticks == 2000,
            c.tick_rate_ms == 100,
    {
        MatchConfig { map_preset: MapPreset::Duel, players: Vec::new(), max_ticks: 2000, tick_rate_ms: 100 }
    }
}

} // verus!
