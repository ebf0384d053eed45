//! The command line: global options and the subcommands.

use vstd::prelude::*;

verus! {

/// Parsed command-line arguments.
#[derive(Debug, Clone)]
pub struct Cli {
    /// Path to forge.yml config.
    pub config: Option<String>,
    /// Enable verbose output.
    pub verbose: bool,
    /// Log level (trace, debug, info, warn, error).
    pub log_level: Option<String>,
    pub command: Command,
}

/// The subcommands.
#[derive(Debug, Clone)]
pub enum Command {
    /// Deploy pipeline scaffolding into the current directory.
    Unpack { pipeline: String, input: Option<String>, slug: Option<String> },
    /// Retract `.forge/` from the current directory.
    Pack { abandon: bool },
    /// Execute the next pending stage of the active pipeline.
    Run { stage: Option<String>, input: Option<String> },
    /// List pipelines and active runs.
    Ls { pipelines: Vec<String>, all: bool },
    /// Show details of the current or a specified pipeline run.
    Show { run_id: Option<String> },
    /// Show the history of pipeline runs.
    History { pipeline: Option<String>, limit: usize },
    /// Print a pipeline definition.
    Describe { pipeline: String, stage: Option<usize> },
    /// List reference material for a pipeline.
    Refs { pipeline: String, stage: Option<usize> },
    /// Initialize forge configuration in `~/.config/forge/`.
    Init { force: bool },
}

impl Command {
    /// Whether the command needs the configuration loaded first: every
    /// command but `init`, which creates that configuration.
    pub fn needs_config(&self) -> (r: bool)
        ensures
            r == !(self is Init),
    {
        match self {
            Command::Init { .. } => false,
            _ => true,
        }
    }
}

} // verus!
