use std::path::{Path, PathBuf};

use forge::config::{
    config_candidates, discover_pipelines, first_existing, resolve_log_level, ForgeConfig,
};
use forge::error::ForgeError;
use tempfile::{Builder, NamedTempFile, TempDir};

fn config_at(home: &str, pipelines: &[&str]) -> ForgeConfig {
    ForgeConfig {
        version: "1".to_string(),
        home: home.to_string(),
        store: "/tmp/store".to_string(),
        pipelines: pipelines.iter().map(|s| s.to_string()).collect(),
        global_references: vec![],
        log_level: None,
    }
}

fn sample_config() -> ForgeConfig {
    ForgeConfig {
        version: "1".to_string(),
        home: "/tmp/forge-test".to_string(),
        store: "/tmp/forge-store".to_string(),
        pipelines: vec!["pipelines/".to_string()],
        global_references: vec!["references/voice.md".to_string()],
        log_level: None,
    }
}

/// A directory named exactly `name` inside `parent`.
fn sub_dir(parent: &Path, name: &str) -> TempDir {
    Builder::new().prefix(name).rand_bytes(0).tempdir_in(parent).expect("failed to create dir")
}

/// A file named exactly `name` inside `dir`.
fn file_in(dir: &Path, name: &str) -> NamedTempFile {
    Builder::new().prefix(name).rand_bytes(0).tempfile_in(dir).expect("failed to write")
}

fn as_string(p: PathBuf) -> String {
    p.to_string_lossy().to_string()
}

fn listing(entries: &[(&str, &str)]) -> Vec<(String, String)> {
    entries.iter().map(|(n, p)| (n.to_string(), p.to_string())).collect()
}

#[test]
fn test_home_dir() {
    let config = sample_config();
    let home = config.home_dir().expect("failed to resolve home");
    assert_eq!(PathBuf::from(home), PathBuf::from("/tmp/forge-test"));
}

#[test]
fn test_reference_path() {
    let config = sample_config();
    let path = config.reference_path("references/voice.md").expect("failed to resolve");
    assert_eq!(PathBuf::from(path), PathBuf::from("/tmp/forge-test/references/voice.md"));
}

#[test]
fn home_dir_expands_tilde() {
    let config = config_at("~/forge", &[]);
    let home = config.home_dir().expect("failed to resolve home");
    // Unchanged only when no home directory is known.
    assert!(home == "~/forge" || (home.ends_with("/forge") && !home.starts_with('~')));
    assert_eq!(config_at("~user/x", &[]).home_dir().expect("home"), "~user/x");
    let store = config_at("/x", &[]).store_dir().expect("store");
    assert_eq!(store, "/tmp/store");
}

#[test]
fn test_pipeline_path() {
    let dir = TempDir::new().expect("failed to create temp dir");
    let pipelines_dir = sub_dir(dir.path(), "pipelines");
    let _f = file_in(pipelines_dir.path(), "techspec.yml");
    let config = config_at(&dir.path().to_string_lossy(), &["pipelines/"]);
    let path = config.pipeline_path("techspec").expect("failed to resolve");
    assert_eq!(path, as_string(pipelines_dir.path().join("techspec.yml")));
}

#[test]
fn test_pipeline_path_unknown() {
    let dir = TempDir::new().expect("failed to create temp dir");
    let _pipelines_dir = sub_dir(dir.path(), "pipelines");
    let config = config_at(&dir.path().to_string_lossy(), &["pipelines/"]);
    let err = config.pipeline_path("nonexistent");
    assert!(err.is_err());
    assert!(matches!(
        err,
        Err(ForgeError::UnknownPipeline { ref name, ref searched })
            if name == "nonexistent" && searched == &vec!["pipelines/".to_string()]
    ));
}

#[test]
fn test_pipeline_path_multiple_dirs() {
    let dir = TempDir::new().expect("failed to create temp dir");
    let dir1 = sub_dir(dir.path(), "local");
    let dir2 = sub_dir(dir.path(), "shared");
    let _a = file_in(dir1.path(), "techspec.yml");
    let _b = file_in(dir2.path(), "research.yml");
    let config = config_at(&dir.path().to_string_lossy(), &["local/", "shared/"]);
    assert!(config.pipeline_path("techspec").is_ok());
    assert!(config.pipeline_path("research").is_ok());
}

#[test]
fn test_pipeline_path_shadowing() {
    let dir = TempDir::new().expect("failed to create temp dir");
    let dir1 = sub_dir(dir.path(), "local");
    let dir2 = sub_dir(dir.path(), "shared");
    let _a = file_in(dir1.path(), "techspec.yml");
    let _b = file_in(dir2.path(), "techspec.yml");
    let config = config_at(&dir.path().to_string_lossy(), &["local/", "shared/"]);
    let path = config.pipeline_path("techspec").expect("failed to resolve");
    assert_eq!(path, as_string(dir1.path().join("techspec.yml")));
}

#[test]
fn pipeline_path_absolute_directory() {
    let dir = TempDir::new().expect("failed to create temp dir");
    let _f = file_in(dir.path(), "blog.yml");
    let abs = dir.path().to_string_lossy().to_string();
    let config = config_at("/nowhere", &[abs.as_str()]);
    assert_eq!(config.pipeline_path("blog").expect("resolve"), as_string(dir.path().join("blog.yml")));
}

#[test]
fn pipeline_candidates_follow_directory_order() {
    let config = config_at("/home/f", &["local/", "/abs/shared", "rel"]);
    assert_eq!(
        config.pipeline_candidates("techspec"),
        vec![
            "/home/f/local/techspec.yml".to_string(),
            "/abs/shared/techspec.yml".to_string(),
            "/home/f/rel/techspec.yml".to_string(),
        ]
    );
}

#[test]
fn first_existing_picks_first_true() {
    assert_eq!(first_existing(&vec![false, true, true]), Some(1));
    assert_eq!(first_existing(&vec![true]), Some(0));
    assert_eq!(first_existing(&vec![false, false]), None);
    assert_eq!(first_existing(&vec![]), None);
}

#[test]
fn discover_pipelines_filters_and_sorts() {
    let found = discover_pipelines(&listing(&[
        ("techspec.yml", "/p/techspec.yml"),
        ("research.yml", "/p/research.yml"),
        ("not-yaml.txt", "/p/not-yaml.txt"),
        (".yml", "/p/.yml"),
    ]));
    assert_eq!(
        found,
        listing(&[("research", "/p/research.yml"), ("techspec", "/p/techspec.yml")])
    );
}

#[test]
fn pipeline_shadowing_first_dir_wins() {
    let found = discover_pipelines(&listing(&[
        ("test.yml", "/local/test.yml"),
        ("custom.yml", "/local/custom.yml"),
        ("test.yml", "/shared/test.yml"),
        ("shared.yml", "/shared/shared.yml"),
    ]));
    assert_eq!(
        found,
        listing(&[
            ("custom", "/local/custom.yml"),
            ("shared", "/shared/shared.yml"),
            ("test", "/local/test.yml"),
        ])
    );
}

#[test]
fn discover_pipelines_empty_listing() {
    assert!(discover_pipelines(&Vec::new()).is_empty());
}

#[test]
fn resolve_log_level_priority() {
    assert_eq!(resolve_log_level(Some("debug"), Some("warn"), Some("error")), "debug");
    assert_eq!(resolve_log_level(None, Some("warn"), Some("error")), "warn");
    assert_eq!(resolve_log_level(None, None, Some("error")), "error");
    assert_eq!(resolve_log_level(None, None, None), "info");
}

#[test]
fn config_search_order() {
    let explicit = config_candidates(Some("/etc/forge.yml"), Some("/fh"), Some("/cfg"));
    assert_eq!(explicit.len(), 1);
    assert_eq!(explicit[0].path, "/etc/forge.yml");
    assert!(!explicit[0].only_if_present);
    assert!(explicit[0].must_load);

    let chain = config_candidates(None, Some("/fh"), Some("/cfg/"));
    let paths: Vec<&str> = chain.iter().map(|c| c.path.as_str()).collect();
    assert_eq!(paths, vec!["/fh/forge.yml", "/cfg/forge/forge.yml", "forge.yml"]);
    assert!(chain.iter().all(|c| c.only_if_present));
    assert_eq!(chain.iter().map(|c| c.must_load).collect::<Vec<_>>(), vec![false, false, true]);

    let bare = config_candidates(None, None, None);
    assert_eq!(bare.len(), 1);
    assert_eq!(bare[0].path, "forge.yml");
}

#[test]
fn pipeline_dirs_resolve_against_home() {
    let config = config_at("/home/f", &["pipelines/", "/abs"]);
    assert_eq!(config.pipeline_dirs(), vec!["/home/f/pipelines/".to_string(), "/abs".to_string()]);
}

#[test]
fn pipeline_discovery_from_multiple_dirs() {
    let found = discover_pipelines(&listing(&[
        ("custom.yml", "/d/local/custom.yml"),
        ("shared.yml", "/d/shared/shared.yml"),
    ]));
    let names: Vec<&str> = found.iter().map(|(n, _)| n.as_str()).collect();
    assert!(names.contains(&"custom"));
    assert!(names.contains(&"shared"));
    assert_eq!(found.len(), 2);
}

/// A forge home with a `pipelines/` directory holding `test.yml` and a
/// `references/` directory holding `voice.md` and `template.md`.
fn scaffold_forge_home(dir: &Path) -> (ForgeConfig, Vec<TempDir>, Vec<NamedTempFile>) {
    let pipelines = sub_dir(dir, "pipelines");
    let refs = sub_dir(dir, "references");
    let files = vec![
        file_in(pipelines.path(), "test.yml"),
        file_in(refs.path(), "voice.md"),
        file_in(refs.path(), "template.md"),
    ];
    let mut config = config_at(&dir.to_string_lossy(), &["pipelines/"]);
    config.global_references = vec!["references/voice.md".to_string()];
    (config, vec![pipelines, refs], files)
}

#[test]
fn reference_resolution_paths() {
    let dir = TempDir::new().expect("temp dir");
    let (config, _dirs, _files) = scaffold_forge_home(dir.path());
    let voice_path = config.reference_path("references/voice.md").expect("resolve");
    assert!(
        Path::new(&voice_path).exists(),
        "global reference should resolve to an existing file"
    );
    let template_path = config.reference_path("references/template.md").expect("resolve");
    assert!(
        Path::new(&template_path).exists(),
        "stage reference should resolve to an existing file"
    );
}

#[test]
fn error_unknown_pipeline() {
    let dir = TempDir::new().expect("temp dir");
    let (config, _dirs, _files) = scaffold_forge_home(dir.path());
    assert!(config.pipeline_path("test").is_ok());
    assert!(config.pipeline_path("nonexistent").is_err(), "unknown pipeline should return error");
}
