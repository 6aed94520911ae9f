use snipdoc::errors::{GrammarErrorKind, ParseError};
use snipdoc::parser::collector::{body, CollectSnippet, Collector};
use snipdoc::parser::SnippetKind;

fn expect(
    found: &CollectSnippet,
    id: &str,
    inject_from: Option<SnippetKind>,
    tag_open: &str,
    tag_close: &str,
    snippet: &[&str],
) {
    assert_eq!(found.id, id);
    assert_eq!(found.inject_from, inject_from);
    assert_eq!(found.tag_open, tag_open);
    assert_eq!(found.tag_close, tag_close);
    assert_eq!(found.snippet, snippet);
}

#[test]
fn can_collect() {
    let content = r#"# Snipdoc
# parse the snippet with `inject_from` attribute
<!-- <snip id="description" inject_from="code"> -->
<!-- </snip> -->

# parse snippet with html comment
<!-- <snip id="installation"> -->
$ cargo install snipdoc
$ ssnipdoc --version
<!-- </snip> -->

# parse snippet without any spaces between the comment
<!--<snip id="no-spaces">-->
$ cargo install snipdoc
$ ssnipdoc --version
<!--</snip>-->

# parse snippet with double slash comment
// <snip id="double-slash">
double-slash
// </snip>

# parse snippet with triple slash comment
/// <snip id="triple-slash">
triple-slash
/// </snip>
///
# parse snippet with triple hashtag comment
# <snip id="hashtag">
hashtag
# </snip>

# Inner snippets
<!-- <snip id="level-1" -->
Level 1
// <snip id="level-2">
Level 2
// <snip id="level-3">
Level 3
// </snip>
// </snip>
<!-- </snip> -->
"#;

    let collector = Collector::new(content);
    let found = collector.run().unwrap();
    assert_eq!(found.len(), 9);
    expect(
        &found[0],
        "description",
        Some(SnippetKind::Code),
        "<snip id=\"description\" inject_from=\"code\">",
        "<!-- </snip> -->\n",
        &[],
    );
    expect(
        &found[1],
        "installation",
        None,
        "<snip id=\"installation\">",
        "<!-- </snip> -->\n",
        &["$ cargo install snipdoc", "$ ssnipdoc --version"],
    );
    expect(
        &found[2],
        "no-spaces",
        None,
        "<snip id=\"no-spaces\">",
        "<!--</snip>-->\n",
        &["$ cargo install snipdoc", "$ ssnipdoc --version"],
    );
    expect(
        &found[3],
        "double-slash",
        None,
        "<snip id=\"double-slash\">",
        "// </snip>\n",
        &["double-slash"],
    );
    expect(
        &found[4],
        "triple-slash",
        None,
        "<snip id=\"triple-slash\">",
        "/// </snip>\n",
        &["triple-slash"],
    );
    expect(&found[5], "hashtag", None, "<snip id=\"hashtag\">", "# </snip>\n", &["hashtag"]);
    expect(
        &found[6],
        "level-1",
        None,
        "<snip id=\"level-1\" -->",
        "<!-- </snip> -->\n",
        &[
            "Level 1",
            "// <snip id=\"level-2\">",
            "Level 2",
            "// <snip id=\"level-3\">",
            "Level 3",
            "// </snip>",
            "// </snip>",
        ],
    );
    expect(
        &found[7],
        "level-2",
        None,
        "<snip id=\"level-2\">",
        "// </snip>\n",
        &["Level 2", "// <snip id=\"level-3\">", "Level 3", "// </snip>"],
    );
    expect(&found[8], "level-3", None, "<snip id=\"level-3\">", "// </snip>\n", &["Level 3"]);
}

#[test]
fn collect_from_a_source_file() {
    let content = "// <snip id=\"readme\">\n//!\n// <snip id=\"title\">\n//! # Title\n// </snip>\n//! after\n// </snip>\nfn main() {}\n";
    let found = Collector::new(content).run().unwrap();
    assert_eq!(found.len(), 2);
    assert_eq!(found[0].id, "readme");
    assert_eq!(
        found[0].snippet,
        ["//!", "// <snip id=\"title\">", "//! # Title", "// </snip>", "//! after"]
    );
    assert_eq!(found[1].id, "title");
    assert_eq!(found[1].snippet, ["//! # Title"]);
}

#[test]
fn collect_nothing_from_plain_text() {
    assert!(Collector::new("").run().unwrap().is_empty());
    assert!(Collector::new("# title\n\ntext // comment\n").run().unwrap().is_empty());
}

#[test]
fn collect_fails_without_id() {
    match Collector::new("<snip name=\"x\">\na\n</snip>\n").run() {
        Err(ParseError::MissingId { tag }) => assert_eq!(tag, "<snip name=\"x\">"),
        other => panic!("{other:?}"),
    }
}

#[test]
fn collect_passes_over_a_tag_that_is_no_snip_element() {
    let found = Collector::new("<snippet id=\"x\">\n<snip id=\"in\">\na\n</snip>\n</snip>\n")
        .run()
        .unwrap();
    assert!(found.is_empty());
}

#[test]
fn collect_fails_on_broken_grammar() {
    match Collector::new("a\n<snip id=\"x\">\nb\n").run() {
        Err(ParseError::Grammar(e)) => {
            assert_eq!(e.kind, GrammarErrorKind::MissingCloseTag);
            assert_eq!(e.offset, 2);
        }
        other => panic!("{other:?}"),
    }
}

#[test]
fn body_of_a_region() {
    assert_eq!(body("<snip id=\"a\">\nx\ny\n</snip>\n"), ["x", "y"]);
    assert!(body("<snip id=\"a\"></snip>").is_empty());
    assert!(body("<snip id=\"a\">\n</snip>").is_empty());
    assert_eq!(body("o\nx\n</snip>\n</snip>\n"), ["x", "</snip>"]);
    assert_eq!(body("o\nx\r\ny\n</snip>"), ["x", "y"]);
    assert!(body("").is_empty());
}

#[test]
fn body_keeps_the_tags_of_nested_regions() {
    let content =
        "// <snip id=\"a\">\nA\n// <snip id=\"b\">\nB\n// </snip>\n// </snip>\n";
    let found = Collector::new(content).run().unwrap();
    assert_eq!(found.len(), 2);
    assert_eq!(found[0].id, "a");
    assert_eq!(found[0].snippet, ["A", "// <snip id=\"b\">", "B", "// </snip>"]);
    assert_eq!(found[1].id, "b");
    assert_eq!(found[1].snippet, ["B"]);
}

#[test]
fn snippet_from_attributes() {
    let mut attributes = snipdoc::strmap::StrMap::new();
    attributes.insert("inject_from".to_string(), "code".to_string());
    match CollectSnippet::from_attributes(&attributes, "<snip>", "</snip>", "<snip>\na\n</snip>") {
        Err(ParseError::MissingId { tag }) => assert_eq!(tag, "<snip>"),
        other => panic!("{other:?}"),
    }
    attributes.insert("id".to_string(), "x".to_string());
    let found =
        CollectSnippet::from_attributes(&attributes, "<snip>", "</snip>", "<snip>\na\n</snip>")
            .unwrap();
    expect(&found, "x", Some(SnippetKind::Code), "<snip>", "</snip>", &["a"]);
    attributes.insert("inject_from".to_string(), "elsewhere".to_string());
    let found =
        CollectSnippet::from_attributes(&attributes, "<snip>", "</snip>", "<snip>\na\n</snip>")
            .unwrap();
    assert_eq!(found.inject_from, None);
}
