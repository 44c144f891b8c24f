//! Verified core of a Discord moderation bot: the command grammar and its
//! matcher, command history bookkeeping, and the decisions behind each command.

pub mod strings;
pub mod charset;
pub mod state_machine;
pub mod commands;
pub mod command_history;
pub mod parse;
pub mod playground;
pub mod godbolt;
pub mod crates;
pub mod tags;
pub mod api;
pub mod ban;
pub mod welcome;
pub mod command;
pub mod setup;
