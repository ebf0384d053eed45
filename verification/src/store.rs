//! Run records: the persistent state of one pipeline run and its stages.

use vstd::prelude::*;

use crate::text::to_owned_string;

verus! {

/// Lifecycle of a whole run.
#[derive(Debug, Clone, Copy, PartialEq, Eq, Structural)]
pub enum RunStatus {
    Unpacked,
    InProgress,
    Packed,
    Completed,
    Abandoned,
}

/// Lifecycle of one stage of a run.
#[derive(Debug, Clone, Copy, PartialEq, Eq, Structural)]
pub enum StageStatus {
    Pending,
    InProgress,
    Review,
    Completed,
    Skipped,
    Failed,
}

/// The name under which a run status is shown and indexed.
pub open spec fn run_status_label(s: RunStatus) -> Seq<char> {
    match s {
        RunStatus::Unpacked => "Unpacked"@,
        RunStatus::InProgress => "InProgress"@,
        RunStatus::Packed => "Packed"@,
        RunStatus::Completed => "Completed"@,
        RunStatus::Abandoned => "Abandoned"@,
    }
}

/// The name under which a stage status is shown.
pub open spec fn stage_status_label(s: StageStatus) -> Seq<char> {
    match s {
        StageStatus::Pending => "Pending"@,
        StageStatus::InProgress => "InProgress"@,
        StageStatus::Review => "Review"@,
        StageStatus::Completed => "Completed"@,
        StageStatus::Skipped => "Skipped"@,
        StageStatus::Failed => "Failed"@,
    }
}

impl RunStatus {
    /// The status's name, e.g. `"InProgress"`.
    pub fn to_string(&self) -> (s: String)
        ensures
            s@ == run_status_label(*self),
    {
        match self {
            RunStatus::Unpacked => to_owned_string("Unpacked"),
            RunStatus::InProgress => to_owned_string("InProgress"),
            RunStatus::Packed => to_owned_string("Packed"),
            RunStatus::Completed => to_owned_string("Completed"),
            RunStatus::Abandoned => to_owned_string("Abandoned"),
        }
    }
}

impl StageStatus {
    /// The status's name, e.g. `"Review"`.
    pub fn to_string(&self) -> (s: String)
        ensures
            s@ == stage_status_label(*self),
    {
        match self {
            StageStatus::Pending => to_owned_string("Pending"),
            StageStatus::InProgress => to_owned_string("InProgress"),
            StageStatus::Review => to_owned_string("Review"),
            StageStatus::Completed => to_owned_string("Completed"),
            StageStatus::Skipped => to_owned_string("Skipped"),
            StageStatus::Failed => to_owned_string("Failed"),
        }
    }
}

/// The record of one stage within a run.
#[derive(Debug, Clone)]
pub struct StageRecord {
    pub name: String,
    pub status: StageStatus,
    pub artifact_path: Option<String>,
    pub started_at: Option<i64>,
    pub completed_at: Option<i64>,
}

/// The record of one pipeline run.
#[derive(Debug, Clone)]
pub struct PipelineRun {
    pub id: String,
    pub pipeline: String,
    pub working_dir: String,
    pub status: RunStatus,
    pub current_stage: usize,
    pub created_at: i64,
    pub updated_at: i64,
    pub input: Option<String>,
    pub slug: Option<String>,
    pub stages: Vec<StageRecord>,
    pub final_destination: Option<String>,
}

/// A value under which a run is indexed in the record store.
#[derive(Debug, Clone)]
pub enum IndexField {
    Text(String),
    Int(i64),
}

/// A lowercase hexadecimal digit.
pub open spec fn lower_hex_digit(c: char) -> bool {
    (0x30 <= (c as u32) <= 0x39) || (0x61 <= (c as u32) <= 0x66)
}

/// The hyphenated form of a version-7 UUID: 36 characters, hyphens at
/// positions 8, 13, 18 and 23, lowercase hexadecimal digits elsewhere, and
/// the version digit `7` at position 14.
pub open spec fn hyphenated_v7(id: Seq<char>) -> bool {
    &&& id.len() == 36
    &&& forall|i: int|
        0 <= i < 36 ==> if i == 8 || i == 13 || i == 18 || i == 23 {
            #[trigger] id[i] == '-'
        } else {
            lower_hex_digit(id[i])
        }
    &&& id[14] == '7'
}

/// A fresh time-ordered run identifier (`uuid::Uuid::now_v7`, rendered with
/// `to_string`).
///
/// Trusted: the identifier is rendered in the hyphenated lowercase form of a
/// version-7 UUID (as `Uuid`'s `Display`, which formats through
/// `format_hyphenated`, writes it). Its value depends on the clock and on
/// randomness and is not otherwise described.
#[verifier::external_body]
pub(crate) fn new_run_id() -> (id: String)
    ensures
        hyphenated_v7(id@),
{
    uuid::Uuid::now_v7().to_string()
}

/// The current time in milliseconds since the Unix epoch
/// (`chrono::Utc::now().timestamp_millis()`).
///
/// Trusted for nothing: the value depends on the clock.
#[verifier::external_body]
pub(crate) fn now_ms() -> (t: i64) {
    chrono::Utc::now().timestamp_millis()
}

/// A fresh pending record for each stage name, in order.
pub open spec fn pending_stage(name: Seq<char>, r: StageRecord) -> bool {
    &&& r.name@ == name
    &&& r.status == StageStatus::Pending
    &&& r.artifact_path is None
    &&& r.started_at is None
    &&& r.completed_at is None
}

impl PipelineRun {
    /// A new run of `pipeline` in `working_dir`: status `Unpacked`, positioned
    /// at the first stage, one pending stage record per name, and a fresh
    /// identifier and creation time.
    pub fn new(
        pipeline: String,
        working_dir: String,
        input: Option<String>,
        slug: Option<String>,
        stage_names: Vec<String>,
    ) -> (run: Self)
        ensures
            hyphenated_v7(run.id@),
            run.pipeline == pipeline,
            run.working_dir == working_dir,
            run.status == RunStatus::Unpacked,
            run.current_stage == 0,
            run.created_at == run.updated_at,
            run.input == input,
            run.slug == slug,
            run.final_destination is None,
            run.stages@.len() == stage_names@.len(),
            forall|i: int|
                0 <= i < stage_names@.len() ==> pending_stage(
                    stage_names@[i]@,
                    #[trigger] run.stages@[i],
                ),
    {
        let now = now_ms();
        let id = new_run_id();
        let mut stages: Vec<StageRecord> = Vec::new();
        let mut i: usize = 0;
        while i < stage_names.len()
            invariant
                i <= stage_names@.len(),
                stages@.len() == i,
                forall|k: int|
                    0 <= k < i ==> pending_stage(stage_names@[k]@, #[trigger] stages@[k]),
            decreases stage_names@.len() - i,
        {
            stages.push(
                StageRecord {
                    name: stage_names[i].clone(),
                    status: StageStatus::Pending,
                    artifact_path: None,
                    started_at: None,
                    completed_at: None,
                },
            );
            i = i + 1;
        }
        PipelineRun {
            id,
            pipeline,
            working_dir,
            status: RunStatus::Unpacked,
            current_stage: 0,
            created_at: now,
            updated_at: now,
            input,
            slug,
            stages,
            final_destination: None,
        }
    }

    /// Stamps the run with the current time; nothing else changes.
    pub fn touch(&mut self)
        ensures
            *final(self) == (PipelineRun { updated_at: final(self).updated_at, ..*old(self) }),
    {
        self.updated_at = now_ms();
    }

    /// The values under which the run is indexed: pipeline, working directory,
    /// status name and current stage.
    pub fn indexed_fields(&self) -> (fields: Vec<(String, IndexField)>)
        ensures
            fields@.len() == 4,
            fields@[0].0@ == "pipeline"@,
            fields@[0].1 matches IndexField::Text(v) && v@ == self.pipeline@,
            fields@[1].0@ == "working_dir"@,
            fields@[1].1 matches IndexField::Text(v) && v@ == self.working_dir@,
            fields@[2].0@ == "status"@,
            fields@[2].1 matches IndexField::Text(v) && v@ == run_status_label(self.status),
            fields@[3].0@ == "current_stage"@,
            fields@[3].1 == IndexField::Int(self.current_stage as i64),
    {
        let mut fields: Vec<(String, IndexField)> = Vec::new();
        fields.push((to_owned_string("pipeline"), IndexField::Text(self.pipeline.clone())));
        fields.push((to_owned_string("working_dir"), IndexField::Text(self.working_dir.clone())));
        fields.push((to_owned_string("status"), IndexField::Text(self.status.to_string())));
        fields.push((to_owned_string("current_stage"), IndexField::Int(self.current_stage as i64)));
        fields
    }
}

} // verus!
