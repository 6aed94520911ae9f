use snipdoc::config::{Config, WalkConfig, DEFAULT_CONFIG_NAME};
use snipdoc::walk::Walk;

fn paths(names: &[&str]) -> Vec<String> {
    names.iter().map(|s| s.to_string()).collect()
}

#[test]
fn can_exclude_files() {
    let config = WalkConfig { includes: vec![], excludes: vec![r"ignores[/|\\]".to_string()] };
    let walk = Walk::from_config(".", &config);
    let files = walk.select(&paths(&[
        "file.txt",
        "folder/file.txt",
        "ignores/ignore.json",
        "README.md",
    ]));
    assert_eq!(files, ["file.txt", "folder/file.txt", "README.md"]);
}

#[test]
fn can_include_files() {
    let config = WalkConfig {
        includes: vec![r"\.md$".to_string(), r"^docs/".to_string()],
        excludes: vec!["draft".to_string()],
    };
    let walk = Walk::from_config("root", &config);
    assert_eq!(walk.folder, "root");
    assert!(walk.should_include("README.md"));
    assert!(walk.should_include("docs/a.txt"));
    assert!(!walk.should_include("src/main.rs"));
    assert!(walk.should_exclude("docs/draft.md"));
    assert!(!walk.should_exclude("docs/final.md"));
    let files =
        walk.select(&paths(&["README.md", "src/main.rs", "docs/draft.md", "docs/a.txt"]));
    assert_eq!(files, ["README.md", "docs/a.txt"]);
}

#[test]
fn without_patterns_every_file_is_taken() {
    let walk = Walk::new("root");
    assert!(walk.should_include("anything"));
    assert!(!walk.should_exclude("anything"));
    assert_eq!(walk.select(&paths(&["a", "b"])), ["a", "b"]);
    assert!(walk.select(&Vec::new()).is_empty());
}

#[test]
fn a_pattern_that_is_no_expression_matches_nothing() {
    let config = WalkConfig { includes: vec!["(".to_string()], excludes: vec!["[".to_string()] };
    let walk = Walk::from_config(".", &config);
    assert!(!walk.should_include("("));
    assert!(!walk.should_exclude("["));
}

#[test]
fn default_config() {
    let config = Config::default();
    assert!(config.walk.includes.is_empty());
    assert!(config.walk.excludes.is_empty());
    assert_eq!(DEFAULT_CONFIG_NAME, "snipdoc-config.yml");
}
