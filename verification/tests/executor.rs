use forge::error::ForgeError;
use forge::executor::{
    advance_run, approve_stage, begin_stage, complete_stage, compose_stage_input, determine_stage_index,
    expand_template, fail_stage, find_next_pending, settle_stage, stage_env_vars,
    stage_output_filename, stage_template_vars, StageOutcome,
};
use forge::pipeline::{OutputConfig, Pipeline, Stage, StageMap};
use forge::store::{PipelineRun, RunStatus, StageStatus};

fn names(list: &[&str]) -> Vec<String> {
    list.iter().map(|s| s.to_string()).collect()
}

fn vars(list: &[(&str, &str)]) -> Vec<(String, String)> {
    list.iter().map(|(k, v)| (k.to_string(), v.to_string())).collect()
}

fn test_pipeline() -> Pipeline {
    let mut stages = StageMap::new();
    stages.insert(
        "research".to_string(),
        Stage {
            name: "research".to_string(),
            description: "Gather context".to_string(),
            command: "fabric".to_string(),
            args: vec!["-p".to_string(), "extract_article_wisdom".to_string()],
            references: vec![],
            review: false,
        },
    );
    stages.insert(
        "outline".to_string(),
        Stage {
            name: "outline".to_string(),
            description: "Create outline".to_string(),
            command: "fabric".to_string(),
            args: vec!["-p".to_string(), "create_outline".to_string()],
            references: vec![],
            review: true,
        },
    );
    Pipeline {
        name: "test".to_string(),
        description: "test pipeline".to_string(),
        output: OutputConfig {
            destination: "out/".to_string(),
            filename: "{date}-{slug}.md".to_string(),
        },
        references: vec!["references/voice.md".to_string()],
        stages,
    }
}

fn run_of(stages: &[&str]) -> PipelineRun {
    PipelineRun::new("test".to_string(), "/tmp".to_string(), None, None, names(stages))
}

// --- stage selection ---

#[test]
fn test_find_next_pending() {
    let run = run_of(&["s1", "s2", "s3"]);
    assert_eq!(find_next_pending(&run, 0), Some(0));
    assert_eq!(find_next_pending(&run, 1), Some(1));
    assert_eq!(find_next_pending(&run, 3), None);
}

#[test]
fn find_next_pending_skips_finished_and_retries_failed() {
    let mut run = run_of(&["s1", "s2", "s3", "s4"]);
    run.stages[0].status = StageStatus::Completed;
    run.stages[1].status = StageStatus::Review;
    run.stages[2].status = StageStatus::Failed;
    assert_eq!(find_next_pending(&run, 0), Some(2));
    run.stages[2].status = StageStatus::Skipped;
    assert_eq!(find_next_pending(&run, 0), Some(3));
    run.stages[3].status = StageStatus::InProgress;
    assert_eq!(find_next_pending(&run, 0), None);
}

#[test]
fn test_determine_stage_by_name() {
    let run = run_of(&["research", "outline"]);
    let pipeline = test_pipeline();
    let idx = determine_stage_index(&run, &pipeline, Some("outline")).expect("failed to find stage");
    assert_eq!(idx, 1);
}

#[test]
fn test_determine_stage_unknown() {
    let run = run_of(&["research"]);
    let pipeline = test_pipeline();
    let err = determine_stage_index(&run, &pipeline, Some("nonexistent"));
    assert!(err.is_err());
    assert!(matches!(
        err,
        Err(ForgeError::UnknownStage { ref stage, ref pipeline }) if stage == "nonexistent" && pipeline == "test"
    ));
}

#[test]
fn determine_stage_without_name() {
    let pipeline = test_pipeline();
    let mut run = run_of(&["research", "outline"]);
    assert_eq!(determine_stage_index(&run, &pipeline, None).ok(), Some(0));
    run.stages[0].status = StageStatus::Completed;
    run.stages[1].status = StageStatus::Review;
    run.current_stage = 1;
    // A stage awaiting review is selected again, for approval.
    assert_eq!(determine_stage_index(&run, &pipeline, None).ok(), Some(1));
    run.stages[1].status = StageStatus::Completed;
    assert!(matches!(
        determine_stage_index(&run, &pipeline, None),
        Err(ForgeError::AllStagesComplete)
    ));
}

// --- transitions ---

#[test]
fn review_gate_status_transitions() {
    let mut run = run_of(&["research", "outline", "draft"]);
    for stage in &run.stages {
        assert_eq!(stage.status, StageStatus::Pending);
    }

    // Stage 1 starts: Pending -> InProgress
    begin_stage(&mut run, 0);
    assert_eq!(run.stages[0].status, StageStatus::InProgress);
    assert_eq!(run.status, RunStatus::InProgress);

    // Stage 1 completes (no review gate): InProgress -> Completed
    settle_stage(&mut run, 0, false);
    assert_eq!(run.stages[0].status, StageStatus::Completed);
    assert_eq!(advance_run(&mut run, 1), Some(1));

    // Stage 2 starts and hits its review gate: InProgress -> Review
    begin_stage(&mut run, 1);
    settle_stage(&mut run, 1, true);
    assert_eq!(run.stages[1].status, StageStatus::Review);
    assert_eq!(run.current_stage, 1);

    // Human approves review: Review -> Completed
    approve_stage(&mut run, 1);
    assert_eq!(run.stages[1].status, StageStatus::Completed);
    assert_eq!(advance_run(&mut run, 2), Some(2));

    // The last stage runs through its gate and is approved.
    begin_stage(&mut run, 2);
    settle_stage(&mut run, 2, true);
    approve_stage(&mut run, 2);
    assert_eq!(advance_run(&mut run, 3), None);

    assert_eq!(run.status, RunStatus::Completed);
    assert!(
        run.stages.iter().all(|s| s.status == StageStatus::Completed),
        "all stages should be completed"
    );
}

#[test]
fn stage_timestamps_track_execution() {
    let mut run = run_of(&["s1", "s2"]);
    assert!(run.stages[0].started_at.is_none());
    assert!(run.stages[0].completed_at.is_none());

    begin_stage(&mut run, 0);
    assert!(run.stages[0].started_at.is_some());
    assert_eq!(run.stages[0].status, StageStatus::InProgress);

    settle_stage(&mut run, 0, false);
    assert_eq!(run.stages[0].status, StageStatus::Completed);
    assert!(run.stages[0].completed_at.is_some());
    assert!(
        run.stages[0].completed_at.expect("completed_at") >= run.stages[0].started_at.expect("started_at"),
        "completed_at should be >= started_at"
    );
    // The other stage is untouched.
    assert!(run.stages[1].started_at.is_none());
    assert_eq!(run.stages[1].status, StageStatus::Pending);
}

#[test]
fn failed_stage_is_retried() {
    let pipeline = test_pipeline();
    let mut run = run_of(&["research", "outline"]);
    begin_stage(&mut run, 0);
    fail_stage(&mut run, 0);
    assert_eq!(run.stages[0].status, StageStatus::Failed);
    assert!(run.stages[0].completed_at.is_none());
    assert_eq!(determine_stage_index(&run, &pipeline, None).ok(), Some(0));
}

#[test]
fn settle_with_review_leaves_completion_time() {
    let mut run = run_of(&["a"]);
    begin_stage(&mut run, 0);
    settle_stage(&mut run, 0, true);
    assert!(run.stages[0].completed_at.is_none());
    let pipeline = test_pipeline();
    assert_eq!(determine_stage_index(&run, &pipeline, None).ok(), Some(0));
}

// --- output file names ---

#[test]
fn stage_output_numbering_matches_index() {
    for (i, name) in ["stage1", "stage2", "stage3", "stage4", "stage5"].iter().enumerate() {
        let file = stage_output_filename(i + 1, name);
        assert!(file.starts_with(&format!("{:02}-", i + 1)));
        assert_eq!(file, format!("{:02}-{}.md", i + 1, name));
    }
}

#[test]
fn stage_output_filename_pads_to_two_digits() {
    assert_eq!(stage_output_filename(1, "research"), "01-research.md");
    assert_eq!(stage_output_filename(12, "draft"), "12-draft.md");
    assert_eq!(stage_output_filename(0, "x"), "00-x.md");
    assert_eq!(stage_output_filename(123, "big"), "123-big.md");
}

// --- template expansion ---

#[test]
fn test_expand_template_all_vars() {
    let v = vars(&[
        ("stage", "research"),
        ("stage_num", "1"),
        ("forge_dir", "/tmp/.forge"),
        ("run_id", "abc-123"),
        ("pipeline", "techspec"),
    ]);
    assert_eq!(expand_template("{stage}", &v), "research");
    assert_eq!(expand_template("{stage_num}", &v), "1");
    assert_eq!(expand_template("{forge_dir}", &v), "/tmp/.forge");
    assert_eq!(expand_template("{run_id}", &v), "abc-123");
    assert_eq!(expand_template("{pipeline}", &v), "techspec");
}

#[test]
fn test_expand_template_mixed_text() {
    let v = vars(&[("stage", "research")]);
    assert_eq!(expand_template("--output={stage}.md", &v), "--output=research.md");
}

#[test]
fn test_expand_template_unrecognized_passthrough() {
    let v = vars(&[]);
    assert_eq!(expand_template("{unknown}", &v), "{unknown}");
    assert_eq!(expand_template("jq '.items[]'", &v), "jq '.items[]'");
}

#[test]
fn test_expand_template_no_vars() {
    let v = vars(&[]);
    assert_eq!(expand_template("-p", &v), "-p");
    assert_eq!(expand_template("extract_article_wisdom", &v), "extract_article_wisdom");
}

#[test]
fn test_expand_template_multiple_vars_in_one_arg() {
    let v = vars(&[("forge_dir", "/tmp/.forge"), ("stage", "research")]);
    assert_eq!(expand_template("{forge_dir}/{stage}.md", &v), "/tmp/.forge/research.md");
}

#[test]
fn expand_template_repeated_placeholder() {
    let v = vars(&[("stage", "s")]);
    assert_eq!(expand_template("{stage}-{stage}-{other}", &v), "s-s-{other}");
}

#[test]
fn plain_text_is_left_alone() {
    let v = vars(&[("stage", "research"), ("pipeline", "techspec")]);
    for arg in ["-p", "", "no braces here", "{", "}{", "{stag}"] {
        assert_eq!(expand_template(arg, &v), arg);
    }
}

#[test]
fn stage_template_vars_lists_every_variable() {
    let v = stage_template_vars("outline", 1, "/w/.forge", "id-1", "techspec", Some("research"));
    assert_eq!(
        v,
        vars(&[
            ("stage", "outline"),
            ("stage_num", "2"),
            ("forge_dir", "/w/.forge"),
            ("run_id", "id-1"),
            ("pipeline", "techspec"),
            ("prev_output", "/w/.forge/01-research.md"),
        ])
    );
    let first = stage_template_vars("research", 0, "/w/.forge", "id-1", "techspec", None);
    assert_eq!(first.len(), 5);
    assert_eq!(first[1], ("stage_num".to_string(), "1".to_string()));
    assert_eq!(
        expand_template("{forge_dir}/{stage_num}-{stage}.md", &first),
        "/w/.forge/1-research.md"
    );
}

#[test]
fn stage_env_vars_names() {
    assert_eq!(
        stage_env_vars("/w/.forge", "research", "id-1", "techspec"),
        vars(&[
            ("FORGE_DIR", "/w/.forge"),
            ("FORGE_STAGE", "research"),
            ("FORGE_RUN_ID", "id-1"),
            ("FORGE_PIPELINE", "techspec"),
        ])
    );
}

// --- context composition ---

#[test]
fn test_compose_stage_input_first_stage() {
    let refs = vars(&[("voice.md", "Be concise.")]);
    let result = compose_stage_input("Gather context", 0, Some("My topic"), &refs);
    assert!(result.contains("--- TASK ---"));
    assert!(result.contains("Gather context"));
    assert!(result.contains("--- INPUT ---"));
    assert!(result.contains("My topic"));
}

#[test]
fn test_compose_stage_input_second_stage() {
    let result = compose_stage_input("Create outline", 1, Some("Research results here"), &vars(&[]));
    assert!(result.contains("--- TASK ---"));
    assert!(result.contains("Create outline"));
    assert!(result.contains("--- PREVIOUS OUTPUT ---"));
    assert!(result.contains("Research results here"));
}

#[test]
fn test_compose_stage_input_cli_override() {
    let result = compose_stage_input("Gather context", 0, Some("CLI input text"), &vars(&[]));
    assert!(result.contains("CLI input text"));
}

#[test]
fn compose_stage_input_exact_layout() {
    let refs = vars(&[("voice.md", "Be concise."), ("template.md", "# T")]);
    assert_eq!(
        compose_stage_input("Gather context", 0, Some("My topic"), &refs),
        "--- TASK ---\nGather context\n\n--- INPUT ---\nMy topic\n\n\
         --- REFERENCE: voice.md ---\nBe concise.\n\n--- REFERENCE: template.md ---\n# T"
    );
    // An empty initial input is left out; an empty previous output is not.
    assert_eq!(compose_stage_input("T", 0, Some(""), &vars(&[])), "--- TASK ---\nT");
    assert_eq!(
        compose_stage_input("T", 2, Some(""), &vars(&[])),
        "--- TASK ---\nT\n\n--- PREVIOUS OUTPUT ---\n"
    );
    assert_eq!(compose_stage_input("T", 2, None, &vars(&[])), "--- TASK ---\nT");
}

#[test]
fn complete_stage_outcomes() {
    let mut run = run_of(&["a", "b", "c"]);
    begin_stage(&mut run, 0);
    assert_eq!(complete_stage(&mut run, 0, false), StageOutcome::Next(1));
    assert_eq!(run.current_stage, 1);
    assert_eq!(run.stages[0].status, StageStatus::Completed);

    begin_stage(&mut run, 1);
    assert_eq!(complete_stage(&mut run, 1, true), StageOutcome::AwaitingReview);
    assert_eq!(run.stages[1].status, StageStatus::Review);
    assert_eq!(run.current_stage, 1);
    assert_eq!(run.status, RunStatus::InProgress);

    run.stages[2].status = StageStatus::Skipped;
    run.stages[1].status = StageStatus::InProgress;
    assert_eq!(complete_stage(&mut run, 1, false), StageOutcome::AllComplete);
    assert_eq!(run.status, RunStatus::Completed);
}
