use snipdoc::parser::injector::{InjectSnippets, InjectStatus, InjectSummary, InjectedContent};
use snipdoc::parser::{Snippet, SnippetKind};
use snipdoc::reporters::table::{kind_text, Output};

#[test]
fn rows_of_an_injection() {
    let mut results = InjectSnippets::new();
    results.insert(
        "/root/a.md".to_string(),
        InjectedContent::Injected(InjectSummary {
            content: String::new(),
            actions: vec![
                InjectStatus::Equal { snippet_id: "one".to_string() },
                InjectStatus::Injected { snippet_id: "two".to_string(), content: "c".to_string() },
                InjectStatus::NotFound {
                    snippet_id: "three".to_string(),
                    snippet_kind: SnippetKind::Code,
                },
            ],
        }),
    );
    results.insert("/root/b.md".to_string(), InjectedContent::NoRegions);
    results.insert("/root/c.md".to_string(), InjectedContent::Error("broken".to_string()));
    let shown = vec!["a.md".to_string(), "b.md".to_string(), "c.md".to_string()];
    assert_eq!(
        Output::inject_rows(&results, &shown),
        [
            ["a.md", "equal", "one", ""],
            ["a.md", "injected", "two", ""],
            ["a.md", "not-found-snippets", "three", "Inject from: Code"],
            ["c.md", "error", "", "broken"],
        ]
    );
    assert_eq!(Output::inject_header(), ["Path", "Action", "Snippet ID", ""]);
    assert!(Output::inject_rows(&InjectSnippets::new(), &Vec::new()).is_empty());
}

#[test]
fn rows_of_snippets() {
    let snippet = Snippet {
        id: "x".to_string(),
        content: "c".to_string(),
        kind: SnippetKind::Yaml,
        path: "/root/s.yml".to_string(),
    };
    assert_eq!(Output::snippets_header(), ["#", "Snippet Kind", "ID", "Path"]);
    assert_eq!(Output::snippet_row(0, "x", &snippet, "s.yml"), ["1", "Yaml", "x", "s.yml"]);
    assert_eq!(Output::snippet_row(41, "x", &snippet, "s.yml")[0], "42");
    assert_eq!(kind_text(SnippetKind::Any), "Any");
    assert_eq!(kind_text(SnippetKind::Code), "Code");
}
