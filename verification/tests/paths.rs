use std::path::Path;

use forge::cli::Command;
use forge::paths::{join_path, path_file_name, path_is_absolute, yml_file_stem};

#[test]
fn join_path_matches_std() {
    let cases = [
        ("/tmp/forge", "pipelines/"),
        ("/tmp/forge/", "references/voice.md"),
        ("", "rel"),
        ("/base", "/abs/file"),
        ("rel", ""),
        ("/", "x"),
    ];
    for (base, rel) in cases {
        let expected = Path::new(base).join(rel).to_string_lossy().to_string();
        assert_eq!(join_path(base, rel), expected, "join {:?} {:?}", base, rel);
    }
}

#[test]
fn path_is_absolute_matches_std() {
    for p in ["/", "/a/b", "a/b", "", "./x", "~/x"] {
        assert_eq!(path_is_absolute(p), Path::new(p).is_absolute(), "{:?}", p);
    }
}

#[test]
fn path_file_name_matches_std() {
    for p in ["a/b.md", "b.md", "a/b/", "a//b", "/", "", ".", "..", "a/..", "a/.", "./x", "a/./"] {
        let expected = Path::new(p).file_name().map(|s| s.to_string_lossy().to_string());
        assert_eq!(path_file_name(p), expected, "{:?}", p);
    }
}

#[test]
fn yml_file_stem_matches_std() {
    for name in ["techspec.yml", "x.y.yml", ".yml", "a.yaml", "notes.txt", "yml", "a.yml.bak"] {
        let p = Path::new(name);
        let expected = if p.extension().is_some_and(|e| e == "yml") {
            p.file_stem().map(|s| s.to_string_lossy().to_string())
        } else {
            None
        };
        assert_eq!(yml_file_stem(name), expected, "{:?}", name);
    }
}

#[test]
fn only_init_runs_without_config() {
    assert!(!Command::Init { force: false }.needs_config());
    assert!(Command::Ls { pipelines: vec![], all: false }.needs_config());
    assert!(Command::Pack { abandon: true }.needs_config());
}

#[test]
fn whitespace_table_matches_std() {
    for c in char::MIN..=char::MAX {
        assert_eq!(forge::text::is_whitespace(c), c.is_whitespace(), "{:?}", c);
    }
}
