use snipdoc::db::yaml::{YamlSnippet, DEFAULT_FILE_NAME};
use snipdoc::db::{Code, DBData, Db, Error, Yaml};
use snipdoc::parser::collector::CollectSnippet;
use snipdoc::parser::{Snippet, SnippetKind, SnippetTemplate};
use snipdoc::strmap::StrMap;

fn collected(id: &str, inject_from: Option<SnippetKind>, snippet: &[&str]) -> CollectSnippet {
    CollectSnippet {
        id: id.to_string(),
        snippet: snippet.iter().map(|s| s.to_string()).collect(),
        inject_from,
        tag_open: format!("<snip id=\"{id}\">"),
        tag_close: "<!-- </snip> -->\n".to_string(),
    }
}

fn get_collect_snippets() -> Vec<CollectSnippet> {
    vec![
        CollectSnippet {
            id: "description".to_string(),
            snippet: vec!["test".to_string(), "snipdoc".to_string()],
            inject_from: None,
            tag_open: "<snip id=\"description\">".to_string(),
            tag_close: "<!-- </snip> -->\n".to_string(),
        },
        CollectSnippet {
            id: "installation".to_string(),
            snippet: vec![
                "```".to_string(),
                "cargo install snipdoc".to_string(),
                "```".to_string(),
            ],
            inject_from: None,
            tag_open: "<snip id=\"install\">".to_string(),
            tag_close: "<!-- </snip> -->\n".to_string(),
        },
        CollectSnippet {
            id: "from-yaml".to_string(),
            snippet: vec!["ignore-snippet".to_string()],
            inject_from: Some(SnippetKind::Yaml),
            tag_open: "<snip id=\"from-yaml\">".to_string(),
            tag_close: "<!-- </snip> -->\n".to_string(),
        },
    ]
}

#[test]
fn code_can_load() {
    let code = Code { snippets: vec![("README.md".to_string(), get_collect_snippets())] };
    let data = code.load().unwrap();
    let description = data.snippets.get("description").unwrap();
    assert_eq!(description.id, "description");
    assert_eq!(description.content, "test\nsnipdoc");
    assert_eq!(description.kind, SnippetKind::Code);
    assert_eq!(description.path, "README.md");
    let installation = data.snippets.get("installation").unwrap();
    assert_eq!(installation.id, "installation");
    assert_eq!(installation.content, "```\ncargo install snipdoc\n```");
    assert_eq!(installation.kind, SnippetKind::Code);
    assert_eq!(installation.path, "README.md");
    assert!(data.snippets.get("from-yaml").is_none());
    assert!(data.templates.entries.is_empty());
}

#[test]
fn code_can_save() {
    let code = Code { snippets: Vec::new() };
    let save_snippets = CollectSnippet {
        id: "description".to_string(),
        snippet: vec!["test".to_string(), "snipdoc".to_string()],
        inject_from: None,
        tag_open: "<snip id=\"description\">".to_string(),
        tag_close: "<!-- </snip> -->\n".to_string(),
    };
    assert!(code.save(&vec![save_snippets], &StrMap::new()).is_err());
    assert!(matches!(code.save(&Vec::new(), &StrMap::new()), Err(Error::NotSupported)));
}

#[test]
fn code_load_takes_the_last_of_an_id() {
    let code = Code::new(vec![
        ("a.rs".to_string(), vec![collected("x", None, &["first"]), collected("y", None, &[])]),
        (
            "b.rs".to_string(),
            vec![
                collected("x", None, &["second", "line"]),
                collected("y", Some(SnippetKind::Any), &["place"]),
            ],
        ),
    ]);
    let data = code.load().unwrap();
    assert_eq!(data.snippets.get("x").unwrap().content, "second\nline");
    assert_eq!(data.snippets.get("x").unwrap().path, "b.rs");
    assert_eq!(data.snippets.get("y").unwrap().content, "");
    assert_eq!(data.snippets.get("y").unwrap().path, "a.rs");
}

#[test]
fn yaml_can_load() {
    let entries = vec![
        (
            "one".to_string(),
            YamlSnippet {
                content: "THIS SNIPPET FROM YAML FILE\n<!-- </snip> -->".to_string(),
                path: "./snipdoc-snippets.yaml".to_string(),
            },
        ),
        (
            "two".to_string(),
            YamlSnippet {
                content: "two".to_string(),
                path: "./snipdoc-snippets.yaml".to_string(),
            },
        ),
    ];
    let mut templates = StrMap::new();
    templates.insert("t".to_string(), SnippetTemplate { content: "{snippet}".to_string() });
    let data = Yaml::to_data(entries, templates);
    let one = data.snippets.get("one").unwrap();
    assert_eq!(one.id, "one");
    assert_eq!(one.content, "THIS SNIPPET FROM YAML FILE\n<!-- </snip> -->");
    assert_eq!(one.kind, SnippetKind::Yaml);
    assert_eq!(one.path, "./snipdoc-snippets.yaml");
    let two = data.snippets.get("two").unwrap();
    assert_eq!(two.content, "two");
    assert_eq!(two.kind, SnippetKind::Yaml);
    assert_eq!(data.templates.get("t").unwrap().content, "{snippet}");
}

#[test]
fn try_load_from_default_file() {
    let yaml = Yaml::try_from_default_file("folder", true).unwrap();
    assert_eq!(yaml.path, "folder/snipdoc.yml");
    assert!(Yaml::try_from_default_file("path", false).is_none());
    assert_eq!(Yaml::try_from_default_file("folder/", true).unwrap().path, "folder/snipdoc.yml");
    assert_eq!(Yaml::try_from_default_file("", true).unwrap().path, "snipdoc.yml");
    assert_eq!(Yaml::default_file("/"), "/snipdoc.yml");
    assert_eq!(Yaml::new("a/b.yml").path, "a/b.yml");
    assert_eq!(DEFAULT_FILE_NAME, "snipdoc.yml");
}

#[test]
fn yaml_can_save() {
    let yaml = Yaml::new("root/snipdoc.yml");
    let saved = yaml.to_save(&get_collect_snippets());
    assert_eq!(saved.get("description").unwrap().content, "test\nsnipdoc");
    assert_eq!(saved.get("description").unwrap().path, "root/snipdoc.yml");
    assert_eq!(saved.get("installation").unwrap().content, "```\ncargo install snipdoc\n```");
    assert!(saved.get("from-yaml").is_none());
}

#[test]
fn merge_lets_the_later_source_win() {
    let snippet = |content: &str, kind| Snippet {
        id: "id".to_string(),
        content: content.to_string(),
        kind,
        path: "p".to_string(),
    };
    let mut first = DBData::default();
    first.snippets.insert("a".to_string(), snippet("code a", SnippetKind::Code));
    first.snippets.insert("b".to_string(), snippet("code b", SnippetKind::Code));
    first.templates.insert("t".to_string(), SnippetTemplate { content: "old".to_string() });
    let mut second = DBData::default();
    second.snippets.insert("b".to_string(), snippet("yaml b", SnippetKind::Yaml));
    second.snippets.insert("c".to_string(), snippet("yaml c", SnippetKind::Yaml));
    second.templates.insert("u".to_string(), SnippetTemplate { content: "new".to_string() });
    first.merge(second);
    assert_eq!(first.snippets.get("a").unwrap().content, "code a");
    assert_eq!(first.snippets.get("b").unwrap().content, "yaml b");
    assert_eq!(first.snippets.get("b").unwrap().kind, SnippetKind::Yaml);
    assert_eq!(first.snippets.get("c").unwrap().content, "yaml c");
    assert!(first.templates.get("t").is_none());
    assert_eq!(first.templates.get("u").unwrap().content, "new");
}

#[test]
fn map_takes_the_last_value_of_a_key() {
    let mut map = StrMap::new();
    assert!(map.get("k").is_none());
    map.insert("k".to_string(), 1);
    map.insert("other".to_string(), 2);
    map.insert("k".to_string(), 3);
    assert_eq!(map.get("k"), Some(&3));
    assert_eq!(map.get("other"), Some(&2));
    assert!(map.contains_key("k"));
    assert!(!map.contains_key("K"));
}
