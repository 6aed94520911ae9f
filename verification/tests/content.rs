use snipdoc::parser::injector::{InjectAction, InjectContentAction, Template};
use snipdoc::parser::synth::{expand, expand_with, shape};
use snipdoc::parser::{Snippet, SnippetKind, SnippetTemplate};
use snipdoc::strmap::StrMap;

fn get_snippet() -> Snippet {
    Snippet {
        id: "test".to_string(),
        content: "$ cargo install snipdoc\n$ snipdoc --version".to_string(),
        kind: SnippetKind::Code,
        path: "main.rs".to_string(),
    }
}

fn get_custom_templates() -> StrMap<SnippetTemplate> {
    let mut templates = StrMap::new();
    templates.insert(
        "CUSTOM_ID_1".to_string(),
        SnippetTemplate { content: "---> {snippet}".to_string() },
    );
    templates.insert(
        "CUSTOM_ID_2".to_string(),
        SnippetTemplate { content: "({snippet})".to_string() },
    );
    templates
}

fn action(
    kind: InjectAction,
    strip_prefix: Option<&str>,
    add_prefix: Option<&str>,
    template: Template,
) -> InjectContentAction {
    InjectContentAction {
        kind,
        snippet_id: "id".to_string(),
        inject_from: SnippetKind::Any,
        strip_prefix: strip_prefix.map(|s| s.to_string()),
        add_prefix: add_prefix.map(|s| s.to_string()),
        template,
    }
}

#[test]
fn can_get_snippet_content_without_action() {
    let snippet = get_snippet();
    let action = action(InjectAction::Copy, None, None, Template::default());
    assert_eq!(
        snippet.create_content(&action, &StrMap::new()),
        "$ cargo install snipdoc\n$ snipdoc --version"
    );
}

#[test]
fn can_get_snippet_content_with_template_action() {
    let snippet = get_snippet();
    let action = action(InjectAction::Copy, None, None, Template::new("```sh\n{snippet}\n```"));
    assert_eq!(
        snippet.create_content(&action, &StrMap::new()),
        "```sh\n$ cargo install snipdoc\n$ snipdoc --version\n```"
    );
}

#[test]
fn can_get_snippet_content_with_custom_template_action() {
    let snippet = get_snippet();
    let action = action(InjectAction::Copy, None, None, Template::new("CUSTOM_ID_1"));
    assert_eq!(
        snippet.create_content(&action, &get_custom_templates()),
        "---> $ cargo install snipdoc\n$ snipdoc --version"
    );
}

#[test]
fn can_get_snippet_content_with_strip_prefix_action() {
    let snippet = get_snippet();
    let action = action(InjectAction::Copy, Some("$ "), None, Template::default());
    assert_eq!(
        snippet.create_content(&action, &StrMap::new()),
        "cargo install snipdoc\nsnipdoc --version"
    );
}

#[test]
fn can_get_snippet_content_with_add_prefix_action() {
    let snippet = get_snippet();
    let action = action(InjectAction::Copy, None, Some("$"), Template::default());
    assert_eq!(
        snippet.create_content(&action, &StrMap::new()),
        "$$ cargo install snipdoc\n$$ snipdoc --version"
    );
}

#[test]
fn can_get_snippet_content_with_combination_action() {
    let snippet = get_snippet();
    let action = action(
        InjectAction::Copy,
        Some("$ "),
        Some("- "),
        Template::new("```sh\n{snippet}\n```"),
    );
    assert_eq!(
        snippet.create_content(&action, &StrMap::new()),
        "- ```sh\n- cargo install snipdoc\n- snipdoc --version\n- ```"
    );
}

#[test]
fn mod_can_get_snippet_with_exec_action_with_template() {
    let mut snippet = get_snippet();
    snippet.content = r"echo calc result: $((1+1))".to_string();
    let action = action(InjectAction::Exec, None, None, Template::new("```sh\n{snippet}\n```"));
    assert_eq!(
        snippet.create_content_with(&action, &StrMap::new(), Some("calc result: 2\n")),
        "```sh\ncalc result: 2\n```"
    );
}

#[test]
fn exec_action_takes_the_output_without_its_last_line_feed() {
    let mut snippet = get_snippet();
    snippet.content = "echo hi".to_string();
    let action = action(InjectAction::Exec, None, None, Template::default());
    assert_eq!(snippet.create_content_with(&action, &StrMap::new(), Some("hi\n")), "hi");
}

#[test]
fn exec_action_falls_back_to_the_content() {
    let mut snippet = get_snippet();
    snippet.content = "echo hi".to_string();
    let action = action(InjectAction::Exec, None, None, Template::default());
    assert_eq!(snippet.create_content_with(&action, &StrMap::new(), None), "echo hi");
    assert_eq!(snippet.create_content(&action, &StrMap::new()), "echo hi");
}

#[test]
fn copy_action_ignores_an_output() {
    let mut snippet = get_snippet();
    snippet.content = "echo hi".to_string();
    let action = action(InjectAction::Copy, None, None, Template::default());
    assert_eq!(snippet.create_content_with(&action, &StrMap::new(), Some("hi\n")), "echo hi");
}

#[test]
fn custom_template_lookup() {
    let mut snippet = get_snippet();
    snippet.content = "X".to_string();
    let mut templates = StrMap::new();
    templates.insert(
        "CUSTOM_ID_1".to_string(),
        SnippetTemplate { content: "---> {snippet}".to_string() },
    );
    let action = action(InjectAction::Copy, None, None, Template::new("CUSTOM_ID_1"));
    assert_eq!(snippet.create_content(&action, &templates), "---> X");
}

#[test]
fn unknown_template_name_is_the_template() {
    let mut snippet = get_snippet();
    snippet.content = "X".to_string();
    let action = action(InjectAction::Copy, None, None, Template::new("<{snippet}>"));
    assert_eq!(snippet.create_content(&action, &get_custom_templates()), "<X>");
}

#[test]
fn builtin_templates_fence_the_content() {
    let mut snippet = get_snippet();
    snippet.content = "a\nb".to_string();
    for name in [
        "text", "json", "yaml", "toml", "html", "rust", "python", "go", "sql", "shell", "bash",
        "sh",
    ] {
        let action = action(InjectAction::Copy, None, None, Template::new(name));
        assert_eq!(
            snippet.create_content(&action, &StrMap::new()),
            format!("```{name}\na\nb\n```")
        );
    }
}

#[test]
fn template_new_names_the_languages() {
    assert!(matches!(Template::new("text"), Template::Text));
    assert!(matches!(Template::new("json"), Template::Json));
    assert!(matches!(Template::new("yaml"), Template::Yaml));
    assert!(matches!(Template::new("toml"), Template::Toml));
    assert!(matches!(Template::new("html"), Template::Html));
    assert!(matches!(Template::new("rust"), Template::Rust));
    assert!(matches!(Template::new("python"), Template::Python));
    assert!(matches!(Template::new("go"), Template::Go));
    assert!(matches!(Template::new("sql"), Template::Sql));
    assert!(matches!(Template::new("shell"), Template::Shell));
    assert!(matches!(Template::new("bash"), Template::Bash));
    assert!(matches!(Template::new("sh"), Template::Sh));
    match Template::new("other") {
        Template::Custom(name) => assert_eq!(name, "other"),
        _ => panic!("a custom template"),
    }
    assert!(matches!(Template::default(), Template::Default));
}

#[test]
fn placeholder_law_on_values() {
    assert_eq!(expand("X{snippet}Y", "C"), "XCY");
    assert_eq!(expand("X{snippet}Y", "a\nb"), "Xa\nbY");
    assert_eq!(expand("X{ snippet}Y", "C"), "XCY");
    assert_eq!(expand("no placeholder", "C"), "no placeholder");
}

#[test]
fn placeholder_indent_goes_to_every_line() {
    assert_eq!(expand("  {snippet}", "a\nb"), "  a\n  b");
    assert_eq!(expand("x:\n    {snippet}\nend", "a\nb"), "x:\n    a\n    b\nend");
}

#[test]
fn escapes_of_the_template_become_line_feeds() {
    assert_eq!(expand("a\\n{snippet}\\nb", "C"), "a\nC\nb");
    assert_eq!(expand("{snippet}", "C\\nD"), "C\\nD");
}

#[test]
fn expand_with_weaves_pieces_and_content() {
    let pieces = vec!["X".to_string(), "Y".to_string()];
    let groups = vec![Some(String::new())];
    assert_eq!(expand_with(&pieces, &groups, "a\nb"), "Xa\nbY");
    let groups = vec![Some("  ".to_string())];
    assert_eq!(expand_with(&pieces, &groups, "a\nb"), "X  a\n  bY");
    let groups = vec![None];
    assert_eq!(expand_with(&pieces, &groups, "a"), "XaY");
    assert_eq!(expand_with(&pieces, &Vec::new(), "a"), "XY");
    assert_eq!(expand_with(&Vec::new(), &groups, "a"), "");
    assert_eq!(expand_with(&vec!["p\\nq".to_string()], &Vec::new(), "a"), "p\nq");
}

#[test]
fn shape_drops_lines_with_tags() {
    assert_eq!(shape("a\n<snip id=\"x\">\nb\n// </snip>\nc", &None, &None), "a\nb\nc");
    assert_eq!(shape("a <snippet\nb", &None, &None), "b");
}

#[test]
fn shape_normalises_line_endings() {
    assert_eq!(shape("a\r\nb\n", &None, &None), "a\nb");
    assert_eq!(shape("", &None, &None), "");
    assert_eq!(shape("\n\na", &None, &None), "\n\na");
}

#[test]
fn prefix_laws_on_values() {
    let p = Some("// ".to_string());
    assert_eq!(shape("// a\n// b", &p, &p), "// a\n// b");
    assert_eq!(shape("// a\nb", &p, &None), "a\nb");
    assert_eq!(shape("a\nb", &None, &p), "// a\n// b");
    assert_eq!(shape("a\nb", &p, &None), "a\nb");
}
