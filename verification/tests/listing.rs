use forge::listing::{
    command_line, compact_layout, filter_pipelines, find_active_run, format_stage_chain,
    group_by_pipeline, history_timestamp, is_current_stage, listing_mode, matches_pipeline, output_location,
    run_progress, short_id, stage_noun, stage_shown, timestamp_label, unmatched_patterns, wrap_text, ListingMode,
};
use forge::pipeline::{OutputConfig, Pipeline, Stage, StageMap};
use forge::store::{PipelineRun, RunStatus};

fn stage(name: &str, review: bool) -> Stage {
    Stage {
        name: name.to_string(),
        description: format!("{} stage", name),
        command: "fabric".to_string(),
        args: vec!["-p".to_string(), format!("{}_pattern", name)],
        references: vec![],
        review,
    }
}

fn pipeline_of(name: &str, stages: &[(&str, bool)]) -> Pipeline {
    let mut map = StageMap::new();
    for (n, review) in stages {
        map.insert(n.to_string(), stage(n, *review));
    }
    Pipeline {
        name: name.to_string(),
        description: format!("{} pipeline", name),
        output: OutputConfig {
            destination: "docs/design".to_string(),
            filename: "{date}-{slug}.md".to_string(),
        },
        references: vec![],
        stages: map,
    }
}

fn run_of(pipeline: &str, stages: &[&str]) -> PipelineRun {
    PipelineRun::new(
        pipeline.to_string(),
        "/tmp/test".to_string(),
        None,
        None,
        stages.iter().map(|s| s.to_string()).collect(),
    )
}

fn pairs(names: &[&str]) -> Vec<(String, String)> {
    names.iter().map(|n| (n.to_string(), format!("/a/{}.yml", n))).collect()
}

// --- matches_pipeline ---

#[test]
fn test_matches_pipeline_exact() {
    assert!(matches_pipeline("techspec", "techspec"));
}

#[test]
fn test_matches_pipeline_substring() {
    assert!(matches_pipeline("techspec", "tech"));
    assert!(matches_pipeline("techspec", "spec"));
}

#[test]
fn test_matches_pipeline_case_insensitive() {
    assert!(matches_pipeline("techspec", "TechSpec"));
    assert!(matches_pipeline("TechSpec", "techspec"));
}

#[test]
fn test_matches_pipeline_no_match() {
    assert!(!matches_pipeline("techspec", "blog"));
}

#[test]
fn test_matches_pipeline_empty_pattern() {
    assert!(matches_pipeline("techspec", ""));
}

#[test]
fn matches_pipeline_pattern_longer_than_name() {
    assert!(!matches_pipeline("tech", "techspec"));
}

#[test]
fn matches_pipeline_lowercases_non_ascii() {
    assert!(matches_pipeline("ÉCOLE", "école"));
}

#[test]
fn name_matches_itself_in_any_case() {
    for name in ["techspec", "Blog-Post", "ÄÖÜ", ""] {
        assert!(matches_pipeline(name, name));
        assert!(matches_pipeline(name, &name.to_uppercase()));
    }
}

// --- filter_pipelines ---

#[test]
fn test_filter_pipelines_single_match() {
    let available = pairs(&["research", "techspec"]);
    let result = filter_pipelines(&available, &vec!["tech".to_string()]).unwrap();
    assert_eq!(result.len(), 1);
    assert_eq!(result[0].0, "techspec");
}

#[test]
fn test_filter_pipelines_multi_match() {
    let available = pairs(&["blog-post", "research", "techspec"]);
    let result =
        filter_pipelines(&available, &vec!["tech".to_string(), "blog".to_string()]).unwrap();
    assert_eq!(result.len(), 2);
    assert_eq!(result[0].0, "blog-post");
    assert_eq!(result[1].0, "techspec");
}

#[test]
fn test_filter_pipelines_overlapping_patterns() {
    let available = pairs(&["techspec"]);
    let result =
        filter_pipelines(&available, &vec!["tech".to_string(), "spec".to_string()]).unwrap();
    assert_eq!(result.len(), 1);
}

#[test]
fn test_filter_pipelines_no_match() {
    let available = pairs(&["techspec"]);
    let result = filter_pipelines(&available, &vec!["xyz".to_string()]).unwrap();
    assert!(result.is_empty());
}

#[test]
fn filter_pipelines_sorts_and_keeps_paths() {
    let available = pairs(&["zeta", "alpha", "mid"]);
    let result = filter_pipelines(&available, &vec!["".to_string()]).unwrap();
    let names: Vec<&str> = result.iter().map(|p| p.0.as_str()).collect();
    assert_eq!(names, vec!["alpha", "mid", "zeta"]);
    assert_eq!(result[0].1, "/a/alpha.yml");
    assert_eq!(result[2].1, "/a/zeta.yml");
}

#[test]
fn unmatched_patterns_reports_patterns_matching_nothing() {
    let available = pairs(&["blog-post", "techspec"]);
    let patterns = vec!["tech".to_string(), "xyz".to_string(), "spec".to_string()];
    // "spec" matches techspec (already selected by "tech"), so it is no miss.
    assert_eq!(unmatched_patterns(&available, &patterns), vec!["xyz".to_string()]);
    assert!(unmatched_patterns(&available, &vec!["blog".to_string()]).is_empty());
    assert_eq!(
        unmatched_patterns(&Vec::new(), &vec!["a".to_string(), "".to_string()]),
        vec!["a".to_string(), "".to_string()]
    );
}

// --- listing mode ---

#[test]
fn listing_mode_follows_arguments() {
    assert_eq!(listing_mode(0, false), ListingMode::Compact);
    assert_eq!(listing_mode(0, true), ListingMode::All);
    assert_eq!(listing_mode(2, true), ListingMode::All);
    assert_eq!(listing_mode(1, false), ListingMode::Matching);
}

// --- format_stage_chain ---

#[test]
fn test_format_stage_chain_with_review() {
    let pipeline =
        pipeline_of("techspec", &[("research", false), ("outline", true), ("draft", true)]);
    assert_eq!(format_stage_chain(&pipeline), "research -> outline [review] -> draft [review]");
}

#[test]
fn test_format_stage_chain_no_review() {
    let pipeline = pipeline_of("research", &[("gather", false), ("analyze", false)]);
    assert_eq!(format_stage_chain(&pipeline), "gather -> analyze");
}

#[test]
fn format_stage_chain_empty_and_single() {
    assert_eq!(format_stage_chain(&pipeline_of("empty", &[])), "");
    assert_eq!(format_stage_chain(&pipeline_of("one", &[("only", true)])), "only [review]");
}

// --- command_line ---

#[test]
fn command_line_joins_arguments() {
    let s = stage("research", false);
    assert_eq!(command_line(&s), "fabric -p research_pattern");
    let bare = Stage { args: vec![], ..stage("x", false) };
    assert_eq!(command_line(&bare), "fabric");
}

// --- wrap_text ---

#[test]
fn wrap_text_short_text_is_one_line() {
    assert_eq!(wrap_text("short text", 80), vec!["short text".to_string()]);
    assert_eq!(wrap_text("anything at all", 0), vec!["anything at all".to_string()]);
}

#[test]
fn wrap_text_breaks_on_words() {
    assert_eq!(
        wrap_text("the quick brown fox jumps", 10),
        vec!["the quick".to_string(), "brown fox".to_string(), "jumps".to_string()]
    );
}

#[test]
fn wrap_text_keeps_long_words_whole() {
    assert_eq!(
        wrap_text("a extraordinarily b", 5),
        vec!["a".to_string(), "extraordinarily".to_string(), "b".to_string()]
    );
}

#[test]
fn wrap_text_only_spaces_gives_one_empty_line() {
    assert_eq!(wrap_text("      ", 3), vec![String::new()]);
}

#[test]
fn wrap_text_keeps_every_word_in_order() {
    let text = "Research, outline, draft, and review a technical specification";
    let lines = wrap_text(text, 17);
    let rejoined: Vec<&str> = lines.iter().flat_map(|l| l.split_whitespace()).collect();
    let words: Vec<&str> = text.split_whitespace().collect();
    assert_eq!(rejoined, words);
    for line in &lines {
        assert!(line.len() <= 17 || !line.contains(' '));
    }
}

#[test]
fn wrap_text_counts_bytes() {
    // "ééé ééé" is 13 bytes but 7 characters.
    assert_eq!(wrap_text("ééé ééé", 7), vec!["ééé".to_string(), "ééé".to_string()]);
}

// --- compact layout ---

#[test]
fn compact_layout_pads_names_and_wraps_descriptions() {
    let entries = vec![
        ("blog-post".to_string(), "Blog post writing pipeline".to_string(), 0),
        ("techspec".to_string(), "Research and draft a specification".to_string(), 2),
    ];
    let layout = compact_layout(&entries, 35);
    assert_eq!(layout.prefix_len, 14);
    assert_eq!(layout.rows.len(), 2);
    assert_eq!(layout.rows[0].name, "blog-post");
    assert_eq!(layout.rows[1].name, "techspec ");
    assert_eq!(layout.rows[0].lines, vec!["Blog post writing".to_string(), "pipeline".to_string()]);
    assert_eq!(
        layout.rows[1].lines,
        vec![
            "Research and draft a".to_string(),
            "specification (2)".to_string()
        ]
    );
}

#[test]
fn compact_layout_narrow_terminal_disables_wrapping() {
    let entries = vec![("a".to_string(), "one two three".to_string(), 1)];
    let layout = compact_layout(&entries, 3);
    assert_eq!(layout.prefix_len, 6);
    assert_eq!(layout.rows[0].lines, vec!["one two three (1)".to_string()]);
}

#[test]
fn compact_layout_empty() {
    let layout = compact_layout(&Vec::new(), 80);
    assert_eq!(layout.prefix_len, 5);
    assert!(layout.rows.is_empty());
}

// --- runs ---

#[test]
fn group_by_pipeline_keeps_first_appearance_order() {
    let names: Vec<String> =
        ["techspec", "blog", "techspec", "research", "blog"].iter().map(|s| s.to_string()).collect();
    let groups = group_by_pipeline(&names);
    assert_eq!(
        groups,
        vec![
            ("techspec".to_string(), vec![0, 2]),
            ("blog".to_string(), vec![1, 4]),
            ("research".to_string(), vec![3]),
        ]
    );
    assert!(group_by_pipeline(&Vec::new()).is_empty());
}

#[test]
fn run_progress_shows_stage_or_complete() {
    let mut run = run_of("techspec", &["research", "outline", "draft"]);
    assert_eq!(run_progress(&run), "stage 1/3 (research)");
    run.current_stage = 1;
    assert_eq!(run_progress(&run), "stage 2/3 (outline)");
    run.current_stage = 3;
    assert_eq!(run_progress(&run), "complete");
}

#[test]
fn find_active_run_picks_first_open_run() {
    let mut a = run_of("t", &["s"]);
    a.status = RunStatus::Completed;
    let mut b = run_of("t", &["s"]);
    b.status = RunStatus::InProgress;
    let c = run_of("t", &["s"]);
    assert_eq!(find_active_run(&vec![a.clone(), b.clone(), c.clone()]), Some(1));
    let mut d = a.clone();
    d.status = RunStatus::Abandoned;
    let mut e = a.clone();
    e.status = RunStatus::Packed;
    assert_eq!(find_active_run(&vec![a, d, e]), None);
    assert_eq!(find_active_run(&vec![c]), Some(0));
}

// --- summaries ---

#[test]
fn short_id_takes_eight_bytes() {
    assert_eq!(short_id("0190a1b2-c3d4-7e5f-8a9b-0c1d2e3f4a5b"), "0190a1b2");
    assert_eq!(short_id("abcdefgh"), "abcdefgh");
    assert_eq!(short_id("éééé-rest"), "éééé");
}

#[test]
fn stage_noun_and_output_location() {
    assert_eq!(stage_noun(1), "stage");
    assert_eq!(stage_noun(0), "stages");
    assert_eq!(stage_noun(3), "stages");
    assert_eq!(output_location("docs/design", "{date}-{slug}.md"), "docs/design/{date}-{slug}.md");
}

#[test]
fn current_stage_marker() {
    let mut run = run_of("t", &["a", "b"]);
    run.current_stage = 1;
    assert!(is_current_stage(&run, 1));
    assert!(!is_current_stage(&run, 0));
    run.status = RunStatus::Completed;
    assert!(!is_current_stage(&run, 1));
}

#[test]
fn stage_filter() {
    assert!(stage_shown(None, 4));
    assert!(stage_shown(Some(2), 2));
    assert!(!stage_shown(Some(2), 1));
}

#[test]
fn wrap_text_splits_on_unicode_whitespace() {
    assert_eq!(
        wrap_text("a\u{3000}b\u{00A0}c", 3),
        vec!["a b".to_string(), "c".to_string()]
    );
}

#[test]
fn history_timestamps() {
    assert_eq!(history_timestamp(947638923004), "2000-01-12 01:02");
    assert_eq!(history_timestamp(0), "1970-01-01 00:00");
    assert_eq!(history_timestamp(i64::MAX), "unknown");
    assert_eq!(timestamp_label(None), "unknown");
    assert_eq!(timestamp_label(Some("x".to_string())), "x");
}

#[test]
fn wrap_text_fills_each_line() {
    let text = "Research, outline, draft, and review a technical document for the team";
    for width in 5..40 {
        let lines = wrap_text(text, width);
        for pair in lines.windows(2) {
            let next_word = pair[1].split(' ').next().unwrap_or("");
            assert!(pair[0].len() + 1 + next_word.len() > width, "{:?} at {}", pair, width);
        }
    }
}

#[test]
fn wrap_text_lines_are_single_spaced() {
    assert_eq!(
        wrap_text("  a   b \t c  dd  ", 4),
        vec!["a b".to_string(), "c dd".to_string()]
    );
}
