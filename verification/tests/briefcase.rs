use forge::briefcase::{
    fill_output_filename, find_last_stage_output, gitignore_after_pack, gitignore_after_unpack,
    pack_status, pick_last_output, reference_display_name, reference_link_name,
    resolve_output_filename, stage_output_paths, unpack_references, GitignoreChange,
};
use forge::error::ForgeError;
use forge::pipeline::{OutputConfig, Pipeline, Stage, StageMap};
use forge::store::{PipelineRun, RunStatus, StageStatus};

fn written(change: GitignoreChange) -> String {
    match change {
        GitignoreChange::Write(s) => s,
        other => panic!("expected a write, got {:?}", other),
    }
}

fn run_of(stages: &[&str]) -> PipelineRun {
    PipelineRun::new(
        "test".to_string(),
        "/w".to_string(),
        None,
        None,
        stages.iter().map(|s| s.to_string()).collect(),
    )
}

fn pipeline_with_refs() -> Pipeline {
    let mut stages = StageMap::new();
    for (name, refs) in [("research", vec![]), ("outline", vec!["references/template.md"])] {
        stages.insert(
            name.to_string(),
            Stage {
                name: name.to_string(),
                description: String::new(),
                command: "echo".to_string(),
                args: vec![],
                references: refs.iter().map(|s| s.to_string()).collect(),
                review: false,
            },
        );
    }
    Pipeline {
        name: "test".to_string(),
        description: String::new(),
        output: OutputConfig { destination: "out/".to_string(), filename: "{date}-{slug}.md".to_string() },
        references: vec!["references/voice.md".to_string(), "references/aaa.md".to_string()],
        stages,
    }
}

// --- final output name ---

#[test]
fn test_resolve_output_filename() {
    let result = resolve_output_filename("{date}-{slug}.md", Some("my-doc"));
    assert!(result.ends_with("-my-doc.md"));
    assert!(result.starts_with("20"));
}

#[test]
fn test_resolve_output_filename_no_slug() {
    let result = resolve_output_filename("{date}-{slug}.md", None);
    assert!(result.ends_with("-output.md"));
}

#[test]
fn resolve_output_filename_uses_a_date() {
    let result = resolve_output_filename("{date}", None);
    let parts: Vec<&str> = result.split('-').collect();
    assert_eq!(parts.len(), 3);
    assert_eq!(parts[0].len(), 4);
    assert_eq!(parts[1].len(), 2);
    assert_eq!(parts[2].len(), 2);
    assert!(result.chars().all(|c| c.is_ascii_digit() || c == '-'));
}

#[test]
fn fill_output_filename_replaces_every_placeholder() {
    assert_eq!(fill_output_filename("{date}-{slug}.md", "2026-03-14", Some("api")), "2026-03-14-api.md");
    assert_eq!(fill_output_filename("{slug}/{slug}.md", "d", None), "output/output.md");
    assert_eq!(fill_output_filename("final.md", "d", Some("s")), "final.md");
}

// --- references ---

#[test]
fn unpack_references_sorted_and_unique() {
    let global = vec!["references/voice.md".to_string()];
    let refs = unpack_references(&global, &pipeline_with_refs());
    assert_eq!(
        refs,
        vec![
            "references/aaa.md".to_string(),
            "references/template.md".to_string(),
            "references/voice.md".to_string(),
        ]
    );
}

#[test]
fn briefcase_reference_flattening() {
    assert_eq!(reference_link_name("references/template.md").ok(), Some("template.md".to_string()));
    assert_eq!(reference_link_name("voice.md").ok(), Some("voice.md".to_string()));
    assert_eq!(reference_link_name("a/b/c/").ok(), Some("c".to_string()));
}

#[test]
fn reference_without_file_name_is_refused() {
    for bad in ["", "/", "refs/..", "."] {
        let r = reference_link_name(bad);
        assert!(matches!(r, Err(ForgeError::InvalidReferencePath { ref reference }) if reference == bad));
    }
    assert_eq!(reference_display_name("refs/.."), "refs/..");
    assert_eq!(reference_display_name("refs/x.md"), "x.md");
}

// --- stage outputs ---

#[test]
fn stage_output_paths_follow_numbering() {
    let run = run_of(&["research", "outline"]);
    assert_eq!(
        stage_output_paths("/w/.forge", &run),
        vec!["/w/.forge/01-research.md".to_string(), "/w/.forge/02-outline.md".to_string()]
    );
}

#[test]
fn pick_last_output_prefers_latest_finished_stage() {
    let mut run = run_of(&["a", "b", "c"]);
    run.stages[0].status = StageStatus::Completed;
    run.stages[1].status = StageStatus::Review;
    run.stages[2].status = StageStatus::Pending;
    assert_eq!(pick_last_output(&run, &vec![true, true, true]), Some(1));
    assert_eq!(pick_last_output(&run, &vec![true, false, true]), Some(0));
    assert_eq!(pick_last_output(&run, &vec![false, false, true]), None);
}

#[test]
fn find_last_stage_output_without_files() {
    let mut run = run_of(&["a"]);
    run.stages[0].status = StageStatus::Completed;
    assert_eq!(find_last_stage_output("/nonexistent/forge-test/.forge", &run), None);
}

#[test]
fn find_last_stage_output_finds_existing_file() {
    let dir = tempfile::TempDir::new().expect("temp dir");
    let _f = tempfile::Builder::new()
        .prefix("01-a.md")
        .rand_bytes(0)
        .tempfile_in(dir.path())
        .expect("file");
    let forge_dir = dir.path().to_string_lossy().to_string();
    let mut run = run_of(&["a", "b"]);
    run.stages[0].status = StageStatus::Completed;
    run.stages[1].status = StageStatus::Completed;
    let found = find_last_stage_output(&forge_dir, &run).expect("output");
    assert_eq!(found, format!("{}/01-a.md", forge_dir));
}

#[test]
fn pack_status_outcomes() {
    assert_eq!(pack_status(false, true), RunStatus::Completed);
    assert_eq!(pack_status(false, false), RunStatus::Abandoned);
    assert_eq!(pack_status(true, true), RunStatus::Abandoned);
    assert_eq!(pack_status(true, false), RunStatus::Abandoned);
}

// --- .gitignore ---

#[test]
fn test_add_to_gitignore_new() {
    let content = written(gitignore_after_unpack(None));
    assert!(content.contains(".forge"));
    assert!(content.contains("# forge-managed"));
    assert_eq!(content, ".forge # forge-managed\n");
}

#[test]
fn test_add_to_gitignore_existing() {
    let content = written(gitignore_after_unpack(Some("target/\n")));
    assert!(content.contains("target/"));
    assert!(content.contains(".forge"));
    assert_eq!(content, "target/\n.forge # forge-managed\n");
}

#[test]
fn add_to_gitignore_without_final_newline() {
    assert_eq!(written(gitignore_after_unpack(Some("target/"))), "target/\n.forge # forge-managed\n");
}

#[test]
fn test_add_to_gitignore_already_present() {
    assert!(matches!(gitignore_after_unpack(Some(".forge\n")), GitignoreChange::Keep));
    assert!(matches!(gitignore_after_unpack(Some("a\n  .forge/  \n")), GitignoreChange::Keep));
}

#[test]
fn test_remove_from_gitignore() {
    let content = written(gitignore_after_pack("target/\n.forge # forge-managed\n"));
    assert!(content.contains("target/"));
    assert!(!content.contains(".forge"));
    assert_eq!(content, "target/\n");
}

#[test]
fn test_remove_from_gitignore_empty_result() {
    assert!(matches!(gitignore_after_pack(".forge # forge-managed\n"), GitignoreChange::Delete));
    assert!(matches!(gitignore_after_pack("\n  \n.forge # forge-managed\n"), GitignoreChange::Delete));
}

#[test]
fn test_remove_from_gitignore_preserves_user_entry() {
    let content = written(gitignore_after_pack(".forge\ntarget/\n"));
    assert!(content.contains(".forge"));
    assert!(content.contains("target/"));
    assert_eq!(content, ".forge\ntarget/\n");
}

#[test]
fn gitignore_lifecycle() {
    let original = "target/\n*.log\n";
    let after_unpack = written(gitignore_after_unpack(Some(original)));
    assert!(after_unpack.contains("target/"), "existing entries preserved");
    assert!(after_unpack.contains(".forge"), ".forge added");
    let after_pack = written(gitignore_after_pack(&after_unpack));
    assert!(after_pack.contains("target/"), "existing entries still preserved after pack");
    assert!(!after_pack.contains(".forge"), ".forge removed after pack");
    assert_eq!(after_pack, original);
}

#[test]
fn gitignore_fresh_round_trip() {
    let created = written(gitignore_after_unpack(None));
    assert!(matches!(gitignore_after_pack(&created), GitignoreChange::Delete));
}

#[test]
fn gitignore_handles_crlf_lines() {
    let content = written(gitignore_after_pack("a\r\n.forge # forge-managed\r\nb\r\n"));
    assert_eq!(content, "a\nb\n");
}
