//! Forge: a runner for staged content pipelines ("briefcase" workspaces).
//!
//! The library holds the verified core: pipeline definitions and their
//! validation, the run/stage state machine, template expansion, context
//! composition, pipeline discovery and listing layout, and the bookkeeping
//! for the `.forge/` workspace (`.gitignore` management, output naming).
//! Everything that touches the terminal, the file system, the process table
//! or the record store lives in the companion binary.

pub mod briefcase;
pub mod cli;
pub mod config;
pub mod error;
pub mod executor;
pub mod init;
pub mod listing;
pub mod order;
pub mod paths;
pub mod pipeline;
pub mod store;
pub mod text;

pub use listing::{filter_pipelines, format_stage_chain, matches_pipeline, wrap_text};
