//! Battleform: the rules of a hex-grid real-time strategy arena, verified.

pub mod hex;
pub mod seqs;
pub mod state;
pub mod config;
pub mod engine;
pub mod pathfinding;
pub mod ids;
pub mod commands;
pub mod combat;
pub mod harvesting;
pub mod fog;
pub mod snapshot;
pub mod bot_ai;
pub mod game;
pub mod maps;
pub mod mcp;
pub mod replay;
