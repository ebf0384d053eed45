use forge::store::{IndexField, PipelineRun, RunStatus, StageStatus};

fn names(list: &[&str]) -> Vec<String> {
    list.iter().map(|s| s.to_string()).collect()
}

#[test]
fn test_pipeline_run_new() {
    let run = PipelineRun::new(
        "techspec".to_string(),
        "/tmp/test".to_string(),
        Some("input.md".to_string()),
        Some("my-slug".to_string()),
        names(&["research", "outline", "draft"]),
    );
    assert_eq!(run.pipeline, "techspec");
    assert_eq!(run.working_dir, "/tmp/test");
    assert_eq!(run.status, RunStatus::Unpacked);
    assert_eq!(run.current_stage, 0);
    assert_eq!(run.stages.len(), 3);
    assert_eq!(run.stages[0].name, "research");
    assert_eq!(run.stages[0].status, StageStatus::Pending);
    assert!(run.slug.is_some());
}

#[test]
fn pipeline_run_new_fresh_record() {
    let run = PipelineRun::new("t".to_string(), "/w".to_string(), None, None, names(&["a", "b"]));
    assert_eq!(run.id.len(), 36);
    assert_eq!(run.created_at, run.updated_at);
    assert!(run.final_destination.is_none());
    assert!(run.input.is_none());
    for (rec, name) in run.stages.iter().zip(["a", "b"]) {
        assert_eq!(rec.name, name);
        assert_eq!(rec.status, StageStatus::Pending);
        assert!(rec.artifact_path.is_none());
        assert!(rec.started_at.is_none());
        assert!(rec.completed_at.is_none());
    }
}

#[test]
fn run_ids_are_distinct() {
    let a = PipelineRun::new("t".to_string(), "/w".to_string(), None, None, vec![]);
    let b = PipelineRun::new("t".to_string(), "/w".to_string(), None, None, vec![]);
    assert_ne!(a.id, b.id);
    assert_eq!(a.id.matches('-').count(), 4);
}

#[test]
fn test_indexed_fields() {
    let run = PipelineRun::new(
        "techspec".to_string(),
        "/tmp/test".to_string(),
        None,
        None,
        names(&["research"]),
    );
    let fields = run.indexed_fields();
    assert_eq!(fields.len(), 4);
    let has = |k: &str| fields.iter().any(|(name, _)| name == k);
    assert!(has("pipeline"));
    assert!(has("working_dir"));
    assert!(has("status"));
    assert!(has("current_stage"));
}

#[test]
fn indexed_fields_values() {
    let mut run = PipelineRun::new("techspec".to_string(), "/w".to_string(), None, None, vec![]);
    run.status = RunStatus::InProgress;
    run.current_stage = 2;
    let fields = run.indexed_fields();
    assert!(matches!(&fields[0].1, IndexField::Text(v) if v == "techspec"));
    assert!(matches!(&fields[1].1, IndexField::Text(v) if v == "/w"));
    assert!(matches!(&fields[2].1, IndexField::Text(v) if v == "InProgress"));
    assert!(matches!(fields[3].1, IndexField::Int(2)));
}

#[test]
fn test_touch() {
    let mut run = PipelineRun::new("test".to_string(), "/tmp".to_string(), None, None, names(&["s1"]));
    let before = run.updated_at;
    let id = run.id.clone();
    run.touch();
    assert!(run.updated_at >= before);
    assert_eq!(run.id, id);
    assert_eq!(run.created_at, before);
}

#[test]
fn test_run_status_display() {
    assert_eq!(RunStatus::Unpacked.to_string(), "Unpacked");
    assert_eq!(RunStatus::InProgress.to_string(), "InProgress");
    assert_eq!(RunStatus::Completed.to_string(), "Completed");
}

#[test]
fn test_stage_status_display() {
    assert_eq!(StageStatus::Pending.to_string(), "Pending");
    assert_eq!(StageStatus::Review.to_string(), "Review");
    assert_eq!(StageStatus::Completed.to_string(), "Completed");
}

#[test]
fn remaining_status_names() {
    assert_eq!(RunStatus::Packed.to_string(), "Packed");
    assert_eq!(RunStatus::Abandoned.to_string(), "Abandoned");
    assert_eq!(StageStatus::InProgress.to_string(), "InProgress");
    assert_eq!(StageStatus::Skipped.to_string(), "Skipped");
    assert_eq!(StageStatus::Failed.to_string(), "Failed");
}

#[test]
fn run_id_is_hyphenated_v7() {
    let run = PipelineRun::new("t".to_string(), "/w".to_string(), None, None, vec![]);
    let chars: Vec<char> = run.id.chars().collect();
    assert_eq!(chars.len(), 36);
    for (i, c) in chars.iter().enumerate() {
        if [8, 13, 18, 23].contains(&i) {
            assert_eq!(*c, '-');
        } else {
            assert!(c.is_ascii_digit() || ('a'..='f').contains(c), "{:?}", run.id);
        }
    }
    assert_eq!(chars[14], '7');
}
