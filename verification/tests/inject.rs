use snipdoc::config::InjectConfig;
use snipdoc::db::{Code, DBData, Db};
use snipdoc::parser::collector::Collector;
use snipdoc::parser::injector::{
    normalize_for_comparison, InjectContentAction, InjectAction, InjectSnippets, InjectStatus,
    InjectSummary, InjectedContent, Injector, Template,
};
use snipdoc::parser::{Snippet, SnippetKind, SnippetTemplate};
use snipdoc::strmap::StrMap;

fn snippet(content: &str, kind: SnippetKind) -> Snippet {
    Snippet {
        id: "test".to_string(),
        content: content.to_string(),
        kind,
        path: "main.rs".to_string(),
    }
}

fn get_snippet_to_inject() -> StrMap<Snippet> {
    let mut snippets = StrMap::new();
    snippets.insert("description".to_string(), snippet("snipdoc", SnippetKind::Code));
    snippets.insert(
        "installation".to_string(),
        snippet("$ cargo install snipdoc\n$ snipdoc --version", SnippetKind::Code),
    );
    snippets.insert(
        "inject_from_yaml".to_string(),
        snippet("inject_from_yaml", SnippetKind::Yaml),
    );
    snippets
}

fn db(snippets: StrMap<Snippet>) -> DBData {
    DBData { snippets, templates: StrMap::new() }
}

fn run(input: &str, db_data: &DBData) -> InjectSummary {
    let config = InjectConfig::default();
    Injector::new(".", input, &config, db_data).run().unwrap()
}

fn injected(status: &InjectStatus, id: &str, text: &str) {
    match status {
        InjectStatus::Injected { snippet_id, content } => {
            assert_eq!(snippet_id, id);
            assert_eq!(content, text);
        }
        other => panic!("{other:?}"),
    }
}

#[test]
fn get_inject() {
    let content = r#"# Snipdoc

<!-- <snip id="installation" inject_from="code"> -->
# inject `installation` snippet id from code snippet kind
<!-- </snip> -->

<!-- <snip id="inject_from_yaml" inject_from="yaml"> -->
# inject `inject_from_yaml` snippet id from yaml snippet kind
<!-- </snip> -->

<!-- <snip id="inject_from_yaml" inject_from="code"> -->
# Skip injection, `inject_from_yaml` snippet id not exists in code
<!-- </snip> -->

<!-- <snip id="inject_from_yaml" inject_from="any"> -->
# inject_from is any, and this id exists in the yaml
<!-- </snip> -->

<!-- <snip id="description" inject_from="code" add_prefix="//! "> -->
# Adding the prefix for each line
<!-- </snip> -->

<!-- <snip id="description" inject_from="code" strip_prefix="snip"> -->
# Strip `snip` word from prefix for each line
<!-- </snip> -->

<!-- <snip id="description" inject_from="code"
template="```sh\n{snippet}\n```"> --> # Add template to inject snippet
<!-- </snip> -->

<!-- <snip id="description" inject_from="code"> -->
snipdoc
<!-- </snip> -->

<!-- <snip id="not-found" inject_from="code"> -->
not-found
<!-- </snip> -->

"#;

    let expected = r#"# Snipdoc

<!-- <snip id="installation" inject_from="code"> -->
$ cargo install snipdoc
$ snipdoc --version
<!-- </snip> -->

<!-- <snip id="inject_from_yaml" inject_from="yaml"> -->
inject_from_yaml
<!-- </snip> -->

<!-- <snip id="inject_from_yaml" inject_from="code"> -->
# Skip injection, `inject_from_yaml` snippet id not exists in code
<!-- </snip> -->

<!-- <snip id="inject_from_yaml" inject_from="any"> -->
inject_from_yaml
<!-- </snip> -->

<!-- <snip id="description" inject_from="code" add_prefix="//! "> -->
//! snipdoc
<!-- </snip> -->

<!-- <snip id="description" inject_from="code" strip_prefix="snip"> -->
doc
<!-- </snip> -->

<!-- <snip id="description" inject_from="code"
template="```sh\n{snippet}\n```"> --> ```sh
snipdoc
```
<!-- </snip> -->

<!-- <snip id="description" inject_from="code"> -->
snipdoc
<!-- </snip> -->

<!-- <snip id="not-found" inject_from="code"> -->
not-found
<!-- </snip> -->

"#;

    let db_data = db(get_snippet_to_inject());
    let summary = run(content, &db_data);
    assert_eq!(summary.content, expected);
    assert_eq!(summary.actions.len(), 8);
    injected(
        &summary.actions[0],
        "installation",
        "$ cargo install snipdoc\n$ snipdoc --version",
    );
    injected(&summary.actions[1], "inject_from_yaml", "inject_from_yaml");
    injected(&summary.actions[2], "inject_from_yaml", "inject_from_yaml");
    injected(&summary.actions[3], "description", "//! snipdoc");
    injected(&summary.actions[4], "description", "doc");
    injected(&summary.actions[5], "description", "```sh\nsnipdoc\n```");
    match &summary.actions[6] {
        InjectStatus::Equal { snippet_id } => assert_eq!(snippet_id, "description"),
        other => panic!("{other:?}"),
    }
    match &summary.actions[7] {
        InjectStatus::NotFound { snippet_id, snippet_kind } => {
            assert_eq!(snippet_id, "not-found");
            assert_eq!(*snippet_kind, SnippetKind::Code);
        }
        other => panic!("{other:?}"),
    }
}

#[test]
fn collect_then_inject() {
    let source = "<!-- <snip id=\"description\"> -->\nnew text\n<!-- </snip> -->";
    let target = "<!-- <snip id=\"description\" inject_from=\"code\"> -->\nold text\n<!-- </snip> -->";
    let found = Collector::new(source).run().unwrap();
    let db_data = Code::new(vec![("source.md".to_string(), found)]).load().unwrap();
    let summary = run(target, &db_data);
    assert_eq!(
        summary.content,
        "<!-- <snip id=\"description\" inject_from=\"code\"> -->\nnew text\n<!-- </snip> -->"
    );
    assert_eq!(summary.actions.len(), 1);
    injected(&summary.actions[0], "description", "new text");
}

#[test]
fn region_without_inject_from_stays() {
    let target = "<!-- <snip id=\"description\"> -->\nold text\n<!-- </snip> -->";
    let summary = run(target, &db(get_snippet_to_inject()));
    assert_eq!(summary.content, target);
    assert!(summary.actions.is_empty());
}

#[test]
fn not_found_leaves_the_text() {
    let target = "a\n<!-- <snip id=\"missing\" inject_from=\"any\"> -->\nold\n<!-- </snip> -->\nb\n";
    let summary = run(target, &db(StrMap::new()));
    assert_eq!(summary.content, target);
    assert_eq!(summary.actions.len(), 1);
    match &summary.actions[0] {
        InjectStatus::NotFound { snippet_id, snippet_kind } => {
            assert_eq!(snippet_id, "missing");
            assert_eq!(*snippet_kind, SnippetKind::Any);
        }
        other => panic!("{other:?}"),
    }
}

#[test]
fn kind_mismatch_is_neither_injected_nor_not_found() {
    let target = "<snip id=\"inject_from_yaml\" inject_from=\"code\">\nold\n</snip>\n";
    let summary = run(target, &db(get_snippet_to_inject()));
    assert_eq!(summary.content, target);
    assert!(summary.actions.is_empty());
    let config = InjectConfig::default();
    let db_data = db(get_snippet_to_inject());
    assert!(matches!(
        Injector::inject(".", target, &config, &db_data),
        InjectedContent::NoRegions
    ));
}

#[test]
fn nested_regions_stay_when_nothing_is_injected() {
    let target = "x\n// <snip id=\"a\">\n1\n// <snip id=\"b\" inject_from=\"any\">\n2\n// </snip>\n// </snip>\ny";
    let summary = run(target, &db(get_snippet_to_inject()));
    assert_eq!(summary.content, target);
    assert!(summary.actions.is_empty());
}

#[test]
fn inject_twice_gives_the_same_text() {
    let target = "# T\n\n<!-- <snip id=\"installation\" inject_from=\"code\"> -->\nold\n<!-- </snip> -->\n\n// <snip id=\"description\" inject_from=\"any\" add_prefix=\"// \">\n// </snip>\ntail\n";
    let db_data = db(get_snippet_to_inject());
    let first = run(target, &db_data);
    assert!(matches!(first.actions[0], InjectStatus::Injected { .. }));
    let second = run(&first.content, &db_data);
    assert_eq!(second.content, first.content);
    assert!(second.actions.iter().all(|a| matches!(a, InjectStatus::Equal { .. })));
    let third = run(&second.content, &db_data);
    assert_eq!(third.content, second.content);
}

#[test]
fn equal_passes_over_white_space() {
    let target = "<snip id=\"description\" inject_from=\"any\">\n\n   snipdoc  \n\n</snip>\n";
    let summary = run(target, &db(get_snippet_to_inject()));
    assert_eq!(summary.content, "<snip id=\"description\" inject_from=\"any\">\nsnipdoc\n</snip>\n");
    assert!(matches!(summary.actions[0], InjectStatus::Equal { .. }));
    assert!(Injector::is_str_equal("a b\n\tc", "abc"));
    assert!(!Injector::is_str_equal("abc", "abd"));
    assert_eq!(normalize_for_comparison(" a\r\n b\u{a0}c "), "abc");
}

#[test]
fn inject_with_outputs_runs_exec_regions() {
    let mut snippets = StrMap::new();
    snippets.insert("cmd".to_string(), snippet("echo hi", SnippetKind::Code));
    let db_data = db(snippets);
    let config = InjectConfig::default();
    let target = "<snip id=\"cmd\" inject_from=\"any\" action=\"exec\">\n</snip>\n";
    let mut outputs = StrMap::new();
    outputs.insert("echo hi".to_string(), "hi\n".to_string());
    let summary = Injector::with_outputs(".", target, &config, &db_data, &outputs).run().unwrap();
    assert_eq!(summary.content, "<snip id=\"cmd\" inject_from=\"any\" action=\"exec\">\nhi\n</snip>\n");
    let summary = Injector::new(".", target, &config, &db_data).run().unwrap();
    assert_eq!(
        summary.content,
        "<snip id=\"cmd\" inject_from=\"any\" action=\"exec\">\necho hi\n</snip>\n"
    );
    match Injector::inject_with_outputs(".", target, &config, &db_data, &outputs) {
        InjectedContent::Injected(summary) => injected(&summary.actions[0], "cmd", "hi"),
        other => panic!("{other:?}"),
    }
}

#[test]
fn inject_reports_a_parse_error() {
    let config = InjectConfig::default();
    let db_data = db(StrMap::new());
    match Injector::inject(".", "text </snip> more", &config, &db_data) {
        InjectedContent::Error(message) => {
            assert_eq!(message, "close tag without open tag at character 4")
        }
        other => panic!("{other:?}"),
    }
    assert!(matches!(
        Injector::inject(".", "no regions", &config, &db_data),
        InjectedContent::NoRegions
    ));
}

#[test]
fn action_of_attributes() {
    let mut attributes = StrMap::new();
    attributes.insert("id".to_string(), "x".to_string());
    assert!(InjectContentAction::new(&attributes).is_none());
    attributes.insert("inject_from".to_string(), "nowhere".to_string());
    assert!(InjectContentAction::new(&attributes).is_none());
    attributes.insert("inject_from".to_string(), "yaml".to_string());
    let action = InjectContentAction::new(&attributes).unwrap();
    assert_eq!(action.snippet_id, "x");
    assert_eq!(action.inject_from, SnippetKind::Yaml);
    assert_eq!(action.kind, InjectAction::Copy);
    assert_eq!(action.strip_prefix, None);
    assert_eq!(action.add_prefix, None);
    assert!(matches!(action.template, Template::Default));
    attributes.insert("action".to_string(), "exec".to_string());
    attributes.insert("strip_prefix".to_string(), "a".to_string());
    attributes.insert("add_prefix".to_string(), "b".to_string());
    attributes.insert("template".to_string(), "rust".to_string());
    let action = InjectContentAction::new(&attributes).unwrap();
    assert_eq!(action.kind, InjectAction::Exec);
    assert_eq!(action.strip_prefix.as_deref(), Some("a"));
    assert_eq!(action.add_prefix.as_deref(), Some("b"));
    assert!(matches!(action.template, Template::Rust));
    attributes.insert("action".to_string(), "other".to_string());
    assert_eq!(InjectContentAction::new(&attributes).unwrap().kind, InjectAction::Copy);
    let mut no_id = StrMap::new();
    no_id.insert("inject_from".to_string(), "any".to_string());
    assert!(InjectContentAction::new(&no_id).is_none());
}

#[test]
fn stats_count_the_statuses() {
    let mut results = InjectSnippets::new();
    results.insert(
        "a.md".to_string(),
        InjectedContent::Injected(InjectSummary {
            content: String::new(),
            actions: vec![
                InjectStatus::Equal { snippet_id: "1".to_string() },
                InjectStatus::Injected { snippet_id: "2".to_string(), content: "c".to_string() },
                InjectStatus::Injected { snippet_id: "3".to_string(), content: "c".to_string() },
                InjectStatus::NotFound {
                    snippet_id: "4".to_string(),
                    snippet_kind: SnippetKind::Any,
                },
                InjectStatus::NotFound {
                    snippet_id: "4".to_string(),
                    snippet_kind: SnippetKind::Code,
                },
            ],
        }),
    );
    results.insert("b.md".to_string(), InjectedContent::NoRegions);
    results.insert("c.md".to_string(), InjectedContent::Error("broken".to_string()));
    results.insert(
        "d.md".to_string(),
        InjectedContent::Injected(InjectSummary {
            content: String::new(),
            actions: vec![InjectStatus::Equal { snippet_id: "1".to_string() }],
        }),
    );
    assert_eq!(results.len(), 4);
    assert_eq!(results.get(1).0, "b.md");
    let stats = results.stats();
    assert_eq!(stats.equals, 2);
    assert_eq!(stats.injects, 2);
    assert_eq!(stats.not_found_count, 2);
    assert_eq!(stats.inject_unique_files, ["a.md"]);
    assert_eq!(stats.not_found, [("a.md".to_string(), "4".to_string())]);
    assert_eq!(stats.errors, [("c.md".to_string(), "broken".to_string())]);
    assert!(stats.check_failed());
    assert!(stats.run_failed());

    let mut clean = InjectSnippets::new();
    clean.insert(
        "d.md".to_string(),
        InjectedContent::Injected(InjectSummary {
            content: String::new(),
            actions: vec![InjectStatus::Equal { snippet_id: "1".to_string() }],
        }),
    );
    assert!(!clean.stats().check_failed());
    assert!(!clean.stats().run_failed());

    let mut changed = InjectSnippets::new();
    changed.insert(
        "e.md".to_string(),
        InjectedContent::Injected(InjectSummary {
            content: String::new(),
            actions: vec![InjectStatus::Injected {
                snippet_id: "1".to_string(),
                content: "c".to_string(),
            }],
        }),
    );
    assert!(changed.stats().check_failed());
    assert!(!changed.stats().run_failed());
}

#[test]
fn templates_of_the_table_are_used() {
    let mut templates = StrMap::new();
    templates.insert("box".to_string(), SnippetTemplate { content: "[{snippet}]".to_string() });
    let db_data = DBData { snippets: get_snippet_to_inject(), templates };
    let target = "<snip id=\"description\" inject_from=\"any\" template=\"box\">\n</snip>";
    let summary = run(target, &db_data);
    assert_eq!(
        summary.content,
        "<snip id=\"description\" inject_from=\"any\" template=\"box\">\n[snipdoc]\n</snip>"
    );
}

#[test]
fn commands_of_exec_regions() {
    let mut snippets = get_snippet_to_inject();
    snippets.insert("cmd".to_string(), snippet("echo hi", SnippetKind::Code));
    snippets.insert("other".to_string(), snippet("date", SnippetKind::Yaml));
    let db_data = db(snippets);
    let config = InjectConfig::default();
    let target = "<snip id=\"cmd\" inject_from=\"any\" action=\"exec\">\n</snip>\n\
<snip id=\"cmd\" inject_from=\"any\">\n</snip>\n\
<snip id=\"other\" inject_from=\"code\" action=\"exec\">\n</snip>\n\
<snip id=\"missing\" inject_from=\"any\" action=\"exec\">\n</snip>\n\
<snip id=\"other\" inject_from=\"yaml\" action=\"exec\">\n</snip>\n";
    let injector = Injector::new(".", target, &config, &db_data);
    assert_eq!(injector.commands().unwrap(), ["echo hi", "date"]);
    let injector = Injector::new(".", "</snip>", &config, &db_data);
    assert!(injector.commands().is_err());
}

#[test]
fn inject_twice_with_text_after_the_open_tag() {
    let target = "<!-- <snip id=\"description\" inject_from=\"code\"\ntemplate=\"```sh\\n{snippet}\\n```\"> --> # note\n<!-- </snip> -->\n";
    let db_data = db(get_snippet_to_inject());
    let first = run(target, &db_data);
    let second = run(&first.content, &db_data);
    assert_eq!(second.content, first.content);
    assert!(matches!(second.actions[0], InjectStatus::Equal { .. }));
}

#[test]
fn content_that_the_closer_takes_in_changes_on_a_second_run() {
    let mut snippets = StrMap::new();
    snippets.insert("lead".to_string(), snippet(" x", SnippetKind::Code));
    let db_data = db(snippets);
    let target = "<snip id=\"lead\" inject_from=\"any\">x\n</snip>";
    let first = run(target, &db_data);
    assert!(matches!(first.actions[0], InjectStatus::Equal { .. }));
    assert_eq!(first.content, "<snip id=\"lead\" inject_from=\"any\"> x\n</snip>");
    let second = run(&first.content, &db_data);
    assert_eq!(second.content, "<snip id=\"lead\" inject_from=\"any\">  x\n</snip>");
}

#[test]
fn status_of_a_region() {
    match InjectStatus::of("a".to_string(), "c".to_string(), "xy", "xy") {
        InjectStatus::Equal { snippet_id } => assert_eq!(snippet_id, "a"),
        other => panic!("{other:?}"),
    }
    injected(&InjectStatus::of("a".to_string(), "c".to_string(), "xy", "xz"), "a", "c");
}

#[test]
fn inject_by_what_the_tag_asks_for() {
    let db_data = db(get_snippet_to_inject());
    let config = InjectConfig::default();
    let input = "// <snip id=\"whatever\">\nold\n// </snip>\n";
    let injector = Injector::new(".", input, &config, &db_data);
    let regions = snipdoc::parser::SnippetParse::parse(input).unwrap();
    let ask = |id: &str, inject_from: SnippetKind| InjectContentAction {
        snippet_id: id.to_string(),
        kind: InjectAction::Copy,
        inject_from,
        strip_prefix: None,
        add_prefix: Some("// ".to_string()),
        template: Template::Default,
    };

    let mut summary = InjectSummary::default();
    injector.inject_asked(&regions[0], None, &mut summary);
    assert_eq!(summary.content, input);
    assert!(summary.actions.is_empty());

    injector.inject_asked(&regions[0], Some(ask("description", SnippetKind::Code)), &mut summary);
    assert_eq!(
        summary.content,
        format!("{input}// <snip id=\"whatever\">\n// snipdoc\n// </snip>\n")
    );
    injected(&summary.actions[0], "description", "// snipdoc");

    let mut summary = InjectSummary::default();
    injector.inject_asked(&regions[0], Some(ask("description", SnippetKind::Yaml)), &mut summary);
    assert_eq!(summary.content, input);
    assert!(summary.actions.is_empty());

    injector.inject_asked(&regions[0], Some(ask("nothing", SnippetKind::Yaml)), &mut summary);
    assert_eq!(summary.content, format!("{input}{input}"));
    assert!(matches!(summary.actions[0], InjectStatus::NotFound { .. }));
}
