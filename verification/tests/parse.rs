use snipdoc::errors::{GrammarError, GrammarErrorKind, ParseError};
use snipdoc::parser::html_tag::{
    get_comment_tag_of_tag_open, get_comment_tag_open, get_tag_attributes, get_tag_close,
    get_tag_open,
};
use snipdoc::parser::tree::Region;
use snipdoc::parser::{SnippetKind, SnippetParse};

fn plain(region: &Region) -> &str {
    match region {
        Region::Plain { text } => text,
        other => panic!("{other:?}"),
    }
}

fn error(input: &str) -> GrammarError {
    SnippetParse::parse(input).unwrap_err()
}

#[test]
fn parse_plain_text() {
    assert!(SnippetParse::parse("").unwrap().is_empty());
    let regions = SnippetParse::parse("# title\n// comment <!-- x -->\n").unwrap();
    assert_eq!(regions.len(), 1);
    assert_eq!(plain(&regions[0]), "# title\n// comment <!-- x -->\n");
}

#[test]
fn parse_a_region() {
    let regions =
        SnippetParse::parse("before\n<!-- <snip id=\"a\"> -->\nbody\n<!-- </snip> -->\nafter")
            .unwrap();
    assert_eq!(regions.len(), 3);
    assert_eq!(plain(&regions[0]), "before\n");
    assert_eq!(get_comment_tag_open(&regions[1]), "<!-- ");
    assert_eq!(get_tag_open(&regions[1]), "<snip id=\"a\">");
    assert_eq!(get_comment_tag_of_tag_open(&regions[1]), Some(" -->\n"));
    assert_eq!(get_tag_close(&regions[1]), "<!-- </snip> -->\n");
    assert_eq!(regions[1].raw(), "<!-- <snip id=\"a\"> -->\nbody\n<!-- </snip> -->\n");
    match &regions[1] {
        Region::Tagged { children, .. } => {
            assert_eq!(children.len(), 1);
            assert_eq!(plain(&children[0]), "body\n");
        }
        other => panic!("{other:?}"),
    }
    assert_eq!(plain(&regions[2]), "after");
}

#[test]
fn parse_leaders() {
    for (input, leader, closer) in [
        ("<snip id=\"a\"></snip>", "", None),
        ("//<snip id=\"a\">\n//</snip>", "//", Some("\n")),
        ("///   <snip id=\"a\">  \r\n</snip>", "///   ", Some("  \r\n")),
        ("# <snip id=\"a\">--> x</snip>", "# ", Some("--> ")),
        ("  <snip id=\"a\">x</snip>", "  ", None),
        ("<!--<snip id=\"a\">-->", "<!--", Some("-->")),
    ] {
        let input = if input.contains("</snip>") {
            input.to_string()
        } else {
            format!("{input}</snip>")
        };
        let regions = SnippetParse::parse(&input).unwrap();
        assert_eq!(get_comment_tag_open(&regions[0]), leader);
        assert_eq!(get_tag_open(&regions[0]), "<snip id=\"a\">");
        assert_eq!(get_comment_tag_of_tag_open(&regions[0]), closer);
    }
}

#[test]
fn parse_nested_regions() {
    let input = "// <snip id=\"a\">\n1\n// <snip id=\"b\">\n2\n// </snip>\n3\n// </snip>\n";
    let regions = SnippetParse::parse(input).unwrap();
    assert_eq!(regions.len(), 1);
    assert_eq!(regions[0].raw(), input);
    match &regions[0] {
        Region::Tagged { children, tag_close, .. } => {
            assert_eq!(tag_close, "// </snip>\n");
            assert_eq!(children.len(), 3);
            assert_eq!(plain(&children[0]), "1\n");
            assert_eq!(children[1].raw(), "// <snip id=\"b\">\n2\n// </snip>\n");
            assert_eq!(plain(&children[2]), "3\n");
        }
        other => panic!("{other:?}"),
    }
}

#[test]
fn parse_covers_the_text() {
    for input in [
        "",
        "a",
        "a <snip id=\"x\"> b </snip> c <snip id=\"y\"></snip>",
        "/// <snip id=\"x\">\n# <snip id=\"y\"> -->\nz\n<!-- </snip> -->\n// </snip>  \n\n",
    ] {
        let regions = SnippetParse::parse(input).unwrap();
        let text: String = regions.iter().map(|r| r.raw()).collect();
        assert_eq!(text, input);
    }
}

#[test]
fn parse_errors() {
    assert_eq!(
        error("ab <snip id=\"x\""),
        GrammarError { kind: GrammarErrorKind::UnterminatedOpenTag, offset: 2 }
    );
    assert_eq!(
        error("<snip id=\"x\">\n// </snip"),
        GrammarError { kind: GrammarErrorKind::MalformedCloseTag, offset: 14 }
    );
    assert_eq!(
        error("a\n<snip id=\"x\">\n<snip id=\"y\">\n</snip>\n"),
        GrammarError { kind: GrammarErrorKind::MissingCloseTag, offset: 2 }
    );
    assert_eq!(
        error("<snip id=\"x\"></snip>é </snip>"),
        GrammarError { kind: GrammarErrorKind::UnexpectedCloseTag, offset: 21 }
    );
}

#[test]
fn error_messages() {
    assert_eq!(
        GrammarError { kind: GrammarErrorKind::UnterminatedOpenTag, offset: 0 }.message(),
        "open tag without `>` at character 0"
    );
    assert_eq!(
        GrammarError { kind: GrammarErrorKind::MalformedCloseTag, offset: 7 }.message(),
        "`</snip` without `>` at character 7"
    );
    assert_eq!(
        GrammarError { kind: GrammarErrorKind::MissingCloseTag, offset: 1234567890 }.message(),
        "open tag without close tag at character 1234567890"
    );
    assert_eq!(
        ParseError::Grammar(GrammarError { kind: GrammarErrorKind::UnexpectedCloseTag, offset: 10 })
            .message(),
        "close tag without open tag at character 10"
    );
    assert_eq!(
        ParseError::SelectorNotFound { selector: "snip".to_string(), tag: "<a>".to_string() }
            .message(),
        "Selector `snip` not found in tag: <a>"
    );
    assert_eq!(
        ParseError::MissingId { tag: "<snip>".to_string() }.message(),
        "attribute `id` not found in tag: <snip>"
    );
}

#[test]
fn tag_attributes() {
    let attributes = get_tag_attributes("<snip id=\"quick_start\">").unwrap();
    assert_eq!(attributes.get("id").map(String::as_str), Some("quick_start"));
    assert!(attributes.get("inject_from").is_none());
    assert!(!attributes.contains_key("<snip id=\"quick_start\">"));

    let attributes = get_tag_attributes(
        "<snip  add_prefix=\"// \" unknown='1'\n inject_from=\"yaml\" id=\"a\" >",
    )
    .unwrap();
    assert_eq!(attributes.get("id").map(String::as_str), Some("a"));
    assert_eq!(attributes.get("inject_from").map(String::as_str), Some("yaml"));
    assert_eq!(attributes.get("add_prefix").map(String::as_str), Some("// "));
    assert_eq!(attributes.get("unknown").map(String::as_str), Some("1"));
}

#[test]
fn tag_attributes_fail_without_a_snip_element() {
    match get_tag_attributes("<snippet id=\"a\">") {
        Err(ParseError::SelectorNotFound { selector, tag }) => {
            assert_eq!(selector, "snip");
            assert_eq!(tag, "<snippet id=\"a\">");
        }
        other => panic!("{other:?}"),
    }
    assert!(get_tag_attributes("no tag").is_err());
}

#[test]
fn kinds_by_name() {
    assert_eq!(SnippetKind::from_str("yaml"), Ok(SnippetKind::Yaml));
    assert_eq!(SnippetKind::from_str("code"), Ok(SnippetKind::Code));
    assert_eq!(SnippetKind::from_str("any"), Ok(SnippetKind::Any));
    assert_eq!(SnippetKind::from_str("Any"), Err(()));
    assert_eq!(SnippetKind::from_str(""), Err(()));
    assert_eq!(SnippetKind::default(), SnippetKind::Any);
}

#[test]
fn attributes_from_names_and_values() {
    let attributes = snipdoc::parser::html_tag::attributes_from(&vec![
        ("id".to_string(), "a".to_string()),
        ("x".to_string(), "1".to_string()),
        ("id".to_string(), "b".to_string()),
    ]);
    assert_eq!(attributes.get("id").map(String::as_str), Some("b"));
    assert_eq!(attributes.get("x").map(String::as_str), Some("1"));
    assert!(attributes.get("y").is_none());
    assert!(snipdoc::parser::html_tag::attributes_from(&Vec::new()).get("id").is_none());
}
