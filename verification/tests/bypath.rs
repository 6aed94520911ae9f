use snipdoc::bypath::{comes_before, insert_by_path};
use snipdoc::db::{Code, Db};
use snipdoc::parser::collector::{CollectSnippet, CollectSnippetsResults};
use snipdoc::parser::injector::{InjectSnippets, InjectedContent};

#[test]
fn order_of_paths() {
    assert!(comes_before("a", "b"));
    assert!(!comes_before("b", "a"));
    assert!(!comes_before("a", "a"));
    assert!(comes_before("", "a"));
    assert!(!comes_before("a", ""));
    assert!(!comes_before("", ""));
    assert!(comes_before("a", "ab"));
    assert!(!comes_before("ab", "a"));
    assert!(comes_before("a-b/x", "a/x"));
    assert!(comes_before("docs/z.md", "docs/é.md"));
    assert!(comes_before("B", "a"));
}

#[test]
fn entries_stand_by_path() {
    let mut entries: Vec<(String, u8)> = Vec::new();
    for (path, value) in [("m", 1), ("b", 2), ("z", 3), ("a", 4), ("m", 5), ("n", 6), ("a", 7)] {
        insert_by_path(&mut entries, path.to_string(), value);
    }
    let expected: Vec<(String, u8)> =
        [("a", 7), ("b", 2), ("m", 5), ("n", 6), ("z", 3)].map(|(p, v)| (p.to_string(), v)).into();
    assert_eq!(entries, expected);
}

#[test]
fn results_stand_by_path() {
    let mut results = InjectSnippets::new();
    results.insert("b.md".to_string(), InjectedContent::NoRegions);
    results.insert("a.md".to_string(), InjectedContent::Error("first".to_string()));
    results.insert("b.md".to_string(), InjectedContent::Error("second".to_string()));
    assert_eq!(results.len(), 2);
    assert_eq!(results.get(0).0, "a.md");
    assert_eq!(results.get(1).0, "b.md");
    assert!(matches!(results.get(1).1, InjectedContent::Error(e) if e == "second"));
}

#[test]
fn collected_files_stand_by_path_and_the_later_file_counts() {
    let snippet = |line: &str| CollectSnippet {
        id: "x".to_string(),
        inject_from: None,
        tag_open: "<snip id=\"x\">".to_string(),
        tag_close: "</snip>".to_string(),
        snippet: vec![line.to_string()],
    };
    let mut results = CollectSnippetsResults::new("root".to_string());
    results.insert("b.rs".to_string(), vec![snippet("from b")]);
    results.insert("a.rs".to_string(), vec![snippet("from a")]);
    assert_eq!(results.root_folder, "root");
    assert_eq!(results.snippets[0].0, "a.rs");
    assert_eq!(results.snippets[1].0, "b.rs");
    let data = Code::new(results.snippets).load().unwrap();
    assert_eq!(data.snippets.get("x").unwrap().content, "from b");
    assert_eq!(data.snippets.get("x").unwrap().path, "b.rs");
}
