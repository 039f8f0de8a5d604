//! The agent protocol: which JSON-RPC methods the server answers, and what each
//! game tool does to the match.

use vstd::prelude::*;
use vstd::string::*;

use crate::config::{Command, CommandModel, command_models};
use crate::engine::{GameState, find_player};
use crate::engine::player_models;
use crate::snapshot::{shows_to, slot_energy};
use crate::game::GameEngine;
use crate::state::{GameStateView, MatchPhase, UnitType, opt_str_view, stats_of, unit_stats};

verus! {

/// JSON-RPC error code of an unknown method.
pub const METHOD_NOT_FOUND: i32 = -32601;

/// JSON-RPC error code of a request that is not valid JSON.
pub const PARSE_ERROR: i32 = -32700;

/// The arguments of a tool call, as far as the tools read them.
pub struct ToolArgs {
    pub unit_type: Option<String>,
    pub unit_id: Option<String>,
    pub target_id: Option<String>,
    pub resource_id: Option<String>,
    pub x: Option<i64>,
    pub y: Option<i64>,
}

pub struct ToolArgsModel {
    pub unit_type: Option<Seq<char>>,
    pub unit_id: Option<Seq<char>>,
    pub target_id: Option<Seq<char>>,
    pub resource_id: Option<Seq<char>>,
    pub x: Option<i64>,
    pub y: Option<i64>,
}

impl View for ToolArgs {
    type V = ToolArgsModel;

    open spec fn view(&self) -> ToolArgsModel {
        ToolArgsModel {
            unit_type: opt_str_view(self.unit_type),
            unit_id: opt_str_view(self.unit_id),
            target_id: opt_str_view(self.target_id),
            resource_id: opt_str_view(self.resource_id),
            x: self.x,
            y: self.y,
        }
    }
}

/// What a tool call comes to.
pub enum ToolPlan {
    /// Answer with the match as the calling player sees it.
    Snapshot,
    /// Queue a command and answer with a message.
    Queue { command: Command, message: String },
    /// Answer with an error message.
    Reject { message: String },
}

pub enum ToolPlanModel {
    Snapshot,
    Queue { command: CommandModel, message: Seq<char> },
    Reject { message: Seq<char> },
}

impl View for ToolPlan {
    type V = ToolPlanModel;

    open spec fn view(&self) -> ToolPlanModel {
        match self {
            ToolPlan::Snapshot => ToolPlanModel::Snapshot,
            ToolPlan::Queue { command, message } => ToolPlanModel::Queue { command: command@, message: message@ },
            ToolPlan::Reject { message } => ToolPlanModel::Reject { message: message@ },
        }
    }
}

/// The answer to a tool call.
pub enum ToolReply {
    /// The match as the calling player sees it.
    GameState(GameStateView),
    /// A text answer.
    Text(String),
    /// An error answer.
    Error(String),
}

/// The answer to a JSON-RPC request.
pub enum McpReply {
    /// The server's protocol version, capabilities and name.
    Initialize,
    /// The definitions of the game tools.
    ToolList,
    /// The answer of a tool.
    Tool(ToolReply),
    /// An empty object.
    Empty,
    /// A JSON-RPC error.
    Failure { code: i32, message: String },
}

pub open spec fn str_or(o: Option<Seq<char>>, d: Seq<char>) -> Seq<char> {
    match o {
        Some(s) => s,
        None => d,
    }
}

/// The unit type a tool names, if any.
pub open spec fn unit_type_named(s: Seq<char>) -> Option<UnitType> {
    if s == "worker"@ {
        Some(UnitType::Worker)
    } else if s == "soldier"@ {
        Some(UnitType::Soldier)
    } else if s == "scout"@ {
        Some(UnitType::Scout)
    } else {
        None
    }
}

/// The decimal digit `d`.
pub open spec fn digit_char(d: int) -> char {
    if d == 0 { '0' } else if d == 1 { '1' } else if d == 2 { '2' } else if d == 3 { '3' }
    else if d == 4 { '4' } else if d == 5 { '5' } else if d == 6 { '6' } else if d == 7 { '7' }
    else if d == 8 { '8' } else { '9' }
}

/// The decimal numeral of `n`, without leading zeros.
pub open spec fn decimal(n: nat) -> Seq<char>
    decreases n,
{
    if n < 10 {
        seq![digit_char(n as int)]
    } else {
        decimal(n / 10) + seq![digit_char((n % 10) as int)]
    }
}

/// The decimal numeral of `i`, with a minus sign when it is negative.
pub open spec fn signed_decimal(i: int) -> Seq<char> {
    if i < 0 {
        seq!['-'] + decimal((-i) as nat)
    } else {
        decimal(i as nat)
    }
}

/// What a spawn the player cannot pay for is answered: the unit type, its cost
/// and the player's energy.
pub open spec fn short_of_energy(unit: Seq<char>, cost: int, energy: int) -> Seq<char> {
    "Insufficient energy: "@ + unit + " costs "@ + signed_decimal(cost) + ", you have "@ + signed_decimal(energy)
}

/// What each tool does for the player in `slot`, who holds `energy` (`None`
/// when no player has that slot): the state tool answers with what the player
/// sees; a spawn the player cannot pay for is refused with its cost and the
/// player's energy; otherwise the four order tools queue a command for the
/// player, with missing arguments defaulting (a worker, empty ids, cell 0), or
/// name what is wrong.
pub open spec fn tool_plan(energy: Option<i32>, slot: u8, name: Seq<char>, args: ToolArgsModel) -> ToolPlanModel {
    if name == "get_game_state"@ {
        ToolPlanModel::Snapshot
    } else if name == "spawn_unit"@ {
        let t = str_or(args.unit_type, "worker"@);
        match unit_type_named(t) {
            Some(unit_type) => if energy matches Some(e) && e < stats_of(unit_type).cost {
                ToolPlanModel::Reject { message: short_of_energy(t, stats_of(unit_type).cost as int, energy->0 as int) }
            } else {
                ToolPlanModel::Queue {
                    command: CommandModel::SpawnUnit { player_slot: slot, unit_type },
                    message: "Unit spawn queued"@,
                }
            },
            None => ToolPlanModel::Reject { message: "Unknown unit type: "@ + t },
        }
    } else if name == "move_unit"@ {
        ToolPlanModel::Queue {
            command: CommandModel::MoveUnit {
                player_slot: slot,
                unit_id: str_or(args.unit_id, ""@),
                target_x: (match args.x { Some(v) => v, None => 0 }) as i32,
                target_y: (match args.y { Some(v) => v, None => 0 }) as i32,
            },
            message: "Move command queued"@,
        }
    } else if name == "attack_target"@ {
        ToolPlanModel::Queue {
            command: CommandModel::AttackTarget {
                player_slot: slot,
                unit_id: str_or(args.unit_id, ""@),
                target_id: str_or(args.target_id, ""@),
            },
            message: "Attack command queued"@,
        }
    } else if name == "harvest"@ {
        ToolPlanModel::Queue {
            command: CommandModel::Harvest {
                player_slot: slot,
                unit_id: str_or(args.unit_id, ""@),
                resource_id: str_or(args.resource_id, ""@),
            },
            message: "Harvest command queued"@,
        }
    } else {
        ToolPlanModel::Reject { message: "Unknown tool: "@ + name }
    }
}

fn digit_text(d: u64) -> (r: &'static str)
    requires
        d < 10,
    ensures
        r@ == seq![digit_char(d as int)],
{
    if d == 0 {
        proof { reveal_strlit("0"); assert("0"@ =~= seq!['0']); }
        "0"
    } else if d == 1 {
        proof { reveal_strlit("1"); assert("1"@ =~= seq!['1']); }
        "1"
    } else if d == 2 {
        proof { reveal_strlit("2"); assert("2"@ =~= seq!['2']); }
        "2"
    } else if d == 3 {
        proof { reveal_strlit("3"); assert("3"@ =~= seq!['3']); }
        "3"
    } else if d == 4 {
        proof { reveal_strlit("4"); assert("4"@ =~= seq!['4']); }
        "4"
    } else if d == 5 {
        proof { reveal_strlit("5"); assert("5"@ =~= seq!['5']); }
        "5"
    } else if d == 6 {
        proof { reveal_strlit("6"); assert("6"@ =~= seq!['6']); }
        "6"
    } else if d == 7 {
        proof { reveal_strlit("7"); assert("7"@ =~= seq!['7']); }
        "7"
    } else if d == 8 {
        proof { reveal_strlit("8"); assert("8"@ =~= seq!['8']); }
        "8"
    } else {
        proof { reveal_strlit("9"); assert("9"@ =~= seq!['9']); }
        "9"
    }
}

fn append_decimal(out: &mut String, n: u64)
    ensures
        final(out)@ == old(out)@ + decimal(n as nat),
    decreases n,
{
    let ghost before = out@;
    if n >= 10 {
        append_decimal(out, n / 10);
    }
    let ghost mid = out@;
    out.append(digit_text(n % 10));
    proof {
        if n >= 10 {
            assert(before + decimal((n / 10) as nat) + seq![digit_char((n % 10) as int)]
                =~= before + (decimal((n / 10) as nat) + seq![digit_char((n % 10) as int)]));
        } else {
            assert(mid == before);
        }
    }
}

fn append_signed(out: &mut String, i: i32)
    ensures
        final(out)@ == old(out)@ + signed_decimal(i as int),
{
    if i < 0 {
        let ghost before = out@;
        proof { reveal_strlit("-"); assert("-"@ =~= seq!['-']); }
        out.append("-");
        let m: i64 = -(i as i64);
        append_decimal(out, m as u64);
        assert(before + seq!['-'] + decimal(m as nat) =~= before + (seq!['-'] + decimal(m as nat)));
    } else {
        append_decimal(out, i as u64);
    }
}

fn short_of_energy_text(unit: &String, cost: i32, energy: i32) -> (r: String)
    ensures
        r@ == short_of_energy(unit@, cost as int, energy as int),
{
    let mut r = text("Insufficient energy: ");
    r.append(unit.as_str());
    r.append(" costs ");
    append_signed(&mut r, cost);
    r.append(", you have ");
    append_signed(&mut r, energy);
    r
}

fn text(s: &str) -> (r: String)
    ensures
        r@ == s@,
{
    s.to_owned()
}

fn same_text(a: &String, b: &str) -> (r: bool)
    ensures
        r == (a@ == b@),
{
    *a == b.to_owned()
}

fn owned_or(o: &Option<String>, d: &str) -> (r: String)
    ensures
        r@ == str_or(opt_str_view(*o), d@),
{
    match o {
        Some(s) => s.clone(),
        None => d.to_owned(),
    }
}

/// What a call of a tool by name comes to, for the player in `slot`.
pub fn plan_tool_call(state: &GameState, slot: u8, tool_name: &String, args: &ToolArgs) -> (p: ToolPlan)
    ensures
        p@ == tool_plan(slot_energy(player_models(state.players@), slot), slot, tool_name@, args@),
{
    if same_text(tool_name, "get_game_state") {
        ToolPlan::Snapshot
    } else if same_text(tool_name, "spawn_unit") {
        let t = owned_or(&args.unit_type, "worker");
        let unit_type = if same_text(&t, "worker") {
            UnitType::Worker
        } else if same_text(&t, "soldier") {
            UnitType::Soldier
        } else if same_text(&t, "scout") {
            UnitType::Scout
        } else {
            let mut message = text("Unknown unit type: ");
            message.append(t.as_str());
            return ToolPlan::Reject { message };
        };
        let found = find_player(&state.players, slot);
        proof { crate::seqs::lemma_first_index_props(crate::engine::player_slots(player_models(state.players@)), slot); }
        let cost = unit_stats(unit_type).cost;
        if let Some(p) = found {
            let energy = state.players[p].energy;
            if energy < cost {
                return ToolPlan::Reject { message: short_of_energy_text(&t, cost, energy) };
            }
        }
        ToolPlan::Queue { command: Command::SpawnUnit { player_slot: slot, unit_type }, message: text("Unit spawn queued") }
    } else if same_text(tool_name, "move_unit") {
        let x: i64 = match args.x { Some(v) => v, None => 0 };
        let y: i64 = match args.y { Some(v) => v, None => 0 };
        ToolPlan::Queue {
            command: Command::MoveUnit {
                player_slot: slot,
                unit_id: owned_or(&args.unit_id, ""),
                target_x: x as i32,
                target_y: y as i32,
            },
            message: text("Move command queued"),
        }
    } else if same_text(tool_name, "attack_target") {
        ToolPlan::Queue {
            command: Command::AttackTarget {
                player_slot: slot,
                unit_id: owned_or(&args.unit_id, ""),
                target_id: owned_or(&args.target_id, ""),
            },
            message: text("Attack command queued"),
        }
    } else if same_text(tool_name, "harvest") {
        ToolPlan::Queue {
            command: Command::Harvest {
                player_slot: slot,
                unit_id: owned_or(&args.unit_id, ""),
                resource_id: owned_or(&args.resource_id, ""),
            },
            message: text("Harvest command queued"),
        }
    } else {
        let mut message = text("Unknown tool: ");
        message.append(tool_name.as_str());
        ToolPlan::Reject { message }
    }
}

/// What queueing a command leaves: pushed while the match is active, ignored otherwise.
pub open spec fn queued(old_e: &GameEngine, new_e: &GameEngine, c: CommandModel) -> bool {
    if old_e.state.phase == MatchPhase::Active {
        &&& command_models(new_e.state.command_queue@) == command_models(old_e.state.command_queue@).push(c)
        &&& new_e.state == (GameState { command_queue: new_e.state.command_queue, ..old_e.state })
        &&& new_e.config == old_e.config
        &&& new_e.tick_count == old_e.tick_count
        &&& new_e.finished == old_e.finished
        &&& new_e.winner == old_e.winner
        &&& new_e.autopilot_slots == old_e.autopilot_slots
    } else {
        *new_e == *old_e
    }
}

/// A tool call carried out on an engine, and its answer: the state tool shows
/// the match as the caller sees it, a queued order is queued, and a refused
/// call leaves the engine as it was.
pub open spec fn tool_call_done(old_e: &GameEngine, new_e: &GameEngine, slot: u8, name: Seq<char>, args: ToolArgsModel, reply: &ToolReply) -> bool {
    match tool_plan(slot_energy(player_models(old_e.state.players@), slot), slot, name, args) {
        ToolPlanModel::Snapshot => *new_e == *old_e && (reply matches ToolReply::GameState(v) && shows_to(&v, &old_e.state, slot)),
        ToolPlanModel::Queue { command, message } => queued(old_e, new_e, command)
            && (reply matches ToolReply::Text(m) && m@ == message),
        ToolPlanModel::Reject { message } => *new_e == *old_e && (reply matches ToolReply::Error(m) && m@ == message),
    }
}

/// Carry out a tool call for the player in `slot`.
pub fn handle_tool_call(engine: &mut GameEngine, player_slot: u8, tool_name: &String, args: &ToolArgs) -> (r: ToolReply)
    ensures
        tool_call_done(old(engine), final(engine), player_slot, tool_name@, args@, &r),
{
    let plan = plan_tool_call(&engine.state, player_slot, tool_name, args);
    match plan {
        ToolPlan::Snapshot => ToolReply::GameState(engine.state.visible_snapshot(player_slot)),
        ToolPlan::Queue { command, message } => {
            let ghost c = command@;
            engine.queue_command(command);
            proof {
                if old(engine).state.phase == MatchPhase::Active {
                    assert(command_models(engine.state.command_queue@) =~= command_models(old(engine).state.command_queue@).push(c));
                }
            }
            ToolReply::Text(message)
        },
        ToolPlan::Reject { message } => ToolReply::Error(message),
    }
}

/// Answer a JSON-RPC request: the handshake, the tool list, a tool call (by the
/// name given, or the empty name), the notifications and pings, and an error
/// for any other method.
pub fn handle_request(engine: &mut GameEngine, player_slot: u8, method: &String, tool_name: &Option<String>, args: &ToolArgs) -> (r: McpReply)
    ensures
        method@ == "initialize"@ ==> r is Initialize && *final(engine) == *old(engine),
        method@ == "tools/list"@ ==> r is ToolList && *final(engine) == *old(engine),
        method@ == "tools/call"@ ==> (r matches McpReply::Tool(reply)
            && tool_call_done(old(engine), final(engine), player_slot, str_or(opt_str_view(*tool_name), ""@), args@, &reply)),
        method@ == "notifications/initialized"@ || method@ == "ping"@ ==> r is Empty && *final(engine) == *old(engine),
        !(method@ == "initialize"@ || method@ == "tools/list"@ || method@ == "tools/call"@
            || method@ == "notifications/initialized"@ || method@ == "ping"@) ==>
            (r matches McpReply::Failure { code, message } && code == METHOD_NOT_FOUND
                && message@ == "Method not found: "@ + method@)
            && *final(engine) == *old(engine),
{
    proof {
        reveal_strlit("initialize");
        reveal_strlit("tools/list");
        reveal_strlit("tools/call");
        reveal_strlit("notifications/initialized");
        reveal_strlit("ping");
        assert("initialize"@[0] != "tools/call"@[0]);
        assert("tools/list"@[6] != "tools/call"@[6]);
        assert("initialize"@ != "tools/call"@);
        assert("tools/list"@ != "tools/call"@);
        assert("initialize"@.len() != "ping"@.len());
        assert("tools/list"@.len() != "notifications/initialized"@.len());
    }
    if same_text(method, "initialize") {
        McpReply::Initialize
    } else if same_text(method, "tools/list") {
        McpReply::ToolList
    } else if same_text(method, "tools/call") {
        let name = owned_or(tool_name, "");
        McpReply::Tool(handle_tool_call(engine, player_slot, &name, args))
    } else if same_text(method, "notifications/initialized") || same_text(method, "ping") {
        McpReply::Empty
    } else {
        let mut message = text("Method not found: ");
        message.append(method.as_str());
        McpReply::Failure { code: METHOD_NOT_FOUND, message }
    }
}

} // verus!
