use forge::error::ForgeError;
use forge::pipeline::{OutputConfig, Pipeline, Stage, StageMap};

fn stage(name: &str, command: &str, refs: &[&str], review: bool) -> Stage {
    Stage {
        name: name.to_string(),
        description: format!("{} description", name),
        command: command.to_string(),
        args: vec![],
        references: refs.iter().map(|s| s.to_string()).collect(),
        review,
    }
}

fn pipeline(name: &str, refs: &[&str], stages: Vec<(&str, Stage)>) -> Pipeline {
    let mut map = StageMap::new();
    for (key, s) in stages {
        map.insert(key.to_string(), s);
    }
    Pipeline {
        name: name.to_string(),
        description: "test".to_string(),
        output: OutputConfig { destination: ".".to_string(), filename: "out.md".to_string() },
        references: refs.iter().map(|s| s.to_string()).collect(),
        stages: map,
    }
}

fn techspec() -> Pipeline {
    pipeline(
        "techspec",
        &["references/voice.md"],
        vec![
            ("research", stage("research", "fabric", &[], false)),
            ("outline", stage("outline", "fabric", &["references/templates/design.md"], true)),
            ("draft", stage("draft", "fabric", &[], true)),
        ],
    )
}

/// The three-stage pipeline of the conformance suite, built by hand.
fn make_pipeline(stage_count: usize, with_reviews: bool) -> Pipeline {
    let mut stages = StageMap::new();
    for i in 0..stage_count {
        let name = format!("stage{}", i + 1);
        stages.insert(
            name.clone(),
            Stage {
                name: name.clone(),
                description: format!("Stage {} description", i + 1),
                command: "echo".to_string(),
                args: vec![format!("pattern_{}", i + 1)],
                references: if i == 1 { vec!["references/template.md".to_string()] } else { vec![] },
                review: with_reviews && i > 0,
            },
        );
    }
    Pipeline {
        name: "test".to_string(),
        description: "Test pipeline".to_string(),
        output: OutputConfig {
            destination: "out/".to_string(),
            filename: "{date}-{slug}.md".to_string(),
        },
        references: vec!["references/voice.md".to_string()],
        stages,
    }
}

#[test]
fn valid_pipeline_passes() {
    assert!(techspec().validate().is_ok());
}

#[test]
fn pipeline_stage_order_preserved() {
    let p = techspec();
    let names: Vec<&str> = p.stages.keys().map(|s| s.as_str()).collect();
    assert_eq!(names, vec!["research", "outline", "draft"]);
}

#[test]
fn test_validate_empty_name() {
    let p = pipeline("", &[], vec![("s1", stage("s1", "p", &[], false))]);
    assert!(p.validate().is_err());
    assert!(matches!(p.validate(), Err(ForgeError::EmptyPipelineName)));
}

#[test]
fn test_validate_no_stages() {
    let p = pipeline("test", &[], vec![]);
    assert!(p.validate().is_err());
    assert!(matches!(p.validate(), Err(ForgeError::NoStages { ref pipeline }) if pipeline == "test"));
}

#[test]
fn pipeline_validates_empty_command() {
    let p = pipeline("bad", &[], vec![("broken", stage("broken", "", &[], false))]);
    assert!(p.validate().is_err(), "empty command should fail validation");
    assert!(matches!(
        p.validate(),
        Err(ForgeError::EmptyCommand { ref stage, ref pipeline }) if stage == "broken" && pipeline == "bad"
    ));
}

#[test]
fn validate_empty_stage_key() {
    let p = pipeline(
        "bad",
        &[],
        vec![("ok", stage("ok", "echo", &[], false)), ("", stage("", "echo", &[], false))],
    );
    assert!(matches!(p.validate(), Err(ForgeError::EmptyStageName { ref pipeline }) if pipeline == "bad"));
}

#[test]
fn validate_reports_first_bad_stage() {
    let p = pipeline(
        "bad",
        &[],
        vec![
            ("a", stage("a", "echo", &[], false)),
            ("b", stage("b", "", &[], false)),
            ("", stage("", "", &[], false)),
        ],
    );
    assert!(matches!(
        p.validate(),
        Err(ForgeError::EmptyCommand { ref stage, .. }) if stage == "b"
    ));
}

#[test]
fn test_all_references_for_stage() {
    let p = techspec();
    let global = vec!["references/global.md".to_string()];
    let refs = p.all_references_for_stage(1, &global);
    assert!(refs.contains(&"references/global.md".to_string()));
    assert!(refs.contains(&"references/voice.md".to_string()));
    assert!(refs.contains(&"references/templates/design.md".to_string()));
    assert_eq!(
        refs,
        vec![
            "references/global.md".to_string(),
            "references/voice.md".to_string(),
            "references/templates/design.md".to_string(),
        ]
    );
}

#[test]
fn all_references_for_missing_stage_has_only_shared_layers() {
    let p = techspec();
    let refs = p.all_references_for_stage(7, &["g.md".to_string()]);
    assert_eq!(refs, vec!["g.md".to_string(), "references/voice.md".to_string()]);
}

#[test]
fn reference_deduplication() {
    let p = make_pipeline(3, true);
    let global = vec!["references/voice.md".to_string()];
    let refs = p.all_references_for_stage(1, &global);
    let voice_count = refs.iter().filter(|r| r.contains("voice.md")).count();
    assert_eq!(voice_count, 1, "references should be deduplicated");
}

#[test]
fn context_composition_references_layered() {
    let p = make_pipeline(3, true);
    let global = vec!["references/voice.md".to_string()];
    let refs_s0 = p.all_references_for_stage(0, &global);
    assert!(refs_s0.contains(&"references/voice.md".to_string()));
    let refs_s1 = p.all_references_for_stage(1, &global);
    assert!(refs_s1.contains(&"references/voice.md".to_string()));
    assert!(refs_s1.contains(&"references/template.md".to_string()));
    assert!(refs_s0.len() <= refs_s1.len());
}

#[test]
fn context_stays_focused_per_stage() {
    let p = make_pipeline(3, true);
    let global = vec!["references/voice.md".to_string()];
    let refs_s0 = p.all_references_for_stage(0, &global);
    assert!(!refs_s0.contains(&"references/template.md".to_string()));
    let refs_s1 = p.all_references_for_stage(1, &global);
    assert!(
        refs_s1.contains(&"references/template.md".to_string()),
        "stage 1 should load its own template reference"
    );
}

#[test]
fn each_reference_appears_once() {
    let p = pipeline("p", &["b.md", "a.md"], vec![("s", stage("s", "x", &["a.md", "a.md", "c.md"], false))]);
    let refs = p.all_references_for_stage(0, &["a.md".to_string()]);
    assert_eq!(refs, vec!["a.md".to_string(), "b.md".to_string(), "c.md".to_string()]);
    let q = pipeline("q", &["a.md"], vec![("s", stage("s", "x", &[], false))]);
    let refs = q.all_references_for_stage(0, &["a.md".to_string(), "b.md".to_string()]);
    assert_eq!(refs, vec!["a.md".to_string(), "b.md".to_string()]);
}

#[test]
fn output_filename_template_resolution() {
    let p = make_pipeline(1, false);
    assert_eq!(p.output.filename, "{date}-{slug}.md");
    assert!(p.output.filename.contains("{date}"));
    assert!(p.output.filename.contains("{slug}"));
}

#[test]
fn stage_by_index_in_definition_order() {
    let p = techspec();
    assert_eq!(p.stage_by_index(0).map(|s| s.name.clone()).ok(), Some("research".to_string()));
    assert_eq!(p.stage_by_index(2).map(|s| s.name.clone()).ok(), Some("draft".to_string()));
    assert!(matches!(p.stage_by_index(3), Err(ForgeError::StageIndexOutOfBounds { index: 3 })));
}
