//! Errors reported by the library.

use vstd::prelude::*;

verus! {

/// Why an operation of the library was refused.
#[derive(Debug, Clone)]
pub enum ForgeError {
    /// No pipeline directory holds `<name>.yml`.
    UnknownPipeline { name: String, searched: Vec<String> },
    /// The pipeline definition has an empty name.
    EmptyPipelineName,
    /// The pipeline definition has no stages.
    NoStages { pipeline: String },
    /// A stage is keyed by the empty name.
    EmptyStageName { pipeline: String },
    /// A stage has an empty command.
    EmptyCommand { stage: String, pipeline: String },
    /// No stage of the pipeline has the requested name.
    UnknownStage { stage: String, pipeline: String },
    /// Every stage of the run is finished; nothing is left to run.
    AllStagesComplete,
    /// A stage index beyond the pipeline's stages.
    StageIndexOutOfBounds { index: usize },
    /// A reference path has no final file-name component.
    InvalidReferencePath { reference: String },
}

} // verus!
