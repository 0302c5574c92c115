//! Core, GUI-independent logic for an EVE Online companion: notification
//! center, intel heuristics, log and paste parsers, skill math, and the
//! aggregations behind the desktop shell.

pub mod ai_tools;
pub mod gatekeeper;
pub mod intel;
pub mod killmail;
pub mod logs;
pub mod loot;
pub mod loyalty;
pub mod mail;
pub mod market_universe;
pub mod mcp;
pub mod mining;
pub mod model;
pub mod navigation;
pub mod notify;
pub mod planets;
pub mod plugin;
pub mod recruit;
pub mod remap;
pub mod reprocess;
pub mod sde;
pub mod share;
pub mod shopping;
pub mod signatures;
pub mod skillplan;
pub mod skillplan_import;
pub mod tally;
pub mod telemetry;
pub mod text;
pub mod tournament;
pub mod trading;
pub mod update;
pub mod wormhole;
