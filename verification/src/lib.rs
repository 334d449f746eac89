//! Verified rules and decision logic for a Power Grid engine and its bots.

pub mod types;
pub mod market;
pub mod features;
pub mod map;
pub mod text;
pub mod state;
pub mod action;
pub mod encoding;
pub mod buying;
pub mod macros;
pub mod schedule;
pub mod policy;
pub mod lobby;
pub mod labels;
pub mod board;
pub mod network;
pub mod server;
pub mod preview;
pub mod heuristic;
pub mod client;
