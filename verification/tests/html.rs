use browser_engine::dom::{Node, NodeType};
use browser_engine::html::parse;

fn tag(node: &Node) -> &str {
    match &node.node_type {
        NodeType::Element(e) => e.tag_name.as_str(),
        NodeType::Text(_) => panic!("an element was asked for"),
    }
}

fn attr<'a>(node: &'a Node, name: &str) -> Option<&'a str> {
    match &node.node_type {
        NodeType::Element(e) => e.attributes.get(name).map(|s| s.as_str()),
        NodeType::Text(_) => panic!("an element was asked for"),
    }
}

fn attr_count(node: &Node) -> usize {
    match &node.node_type {
        NodeType::Element(e) => e.attributes.len(),
        NodeType::Text(_) => panic!("an element was asked for"),
    }
}

fn content(node: &Node) -> &str {
    match &node.node_type {
        NodeType::Text(s) => s.as_str(),
        NodeType::Element(_) => panic!("a text node was asked for"),
    }
}

#[test]
fn parse_reads_nested_elements_text_and_attributes() {
    let root = parse(
        "<html><body class=\"a b\" id='main'>Hello <b>world</b>!</body></html>".to_string(),
    )
    .unwrap();
    assert_eq!(tag(&root), "html");
    assert_eq!(attr_count(&root), 0);
    assert_eq!(root.children.len(), 1);
    let body = &root.children[0];
    assert_eq!(tag(body), "body");
    assert_eq!(attr(body, "class"), Some("a b"));
    assert_eq!(attr(body, "id"), Some("main"));
    assert_eq!(attr_count(body), 2);
    assert_eq!(body.children.len(), 3);
    assert_eq!(content(&body.children[0]), "Hello ");
    assert_eq!(tag(&body.children[1]), "b");
    assert_eq!(content(&body.children[1].children[0]), "world");
    assert_eq!(content(&body.children[2]), "!");
}

#[test]
fn parse_wraps_several_top_level_nodes_in_html() {
    let root = parse("<a></a> text <b></b>".to_string()).unwrap();
    assert_eq!(tag(&root), "html");
    assert_eq!(attr_count(&root), 0);
    assert_eq!(root.children.len(), 3);
    assert_eq!(tag(&root.children[0]), "a");
    assert_eq!(content(&root.children[1]), "text ");
    assert_eq!(tag(&root.children[2]), "b");
}

#[test]
fn parse_of_nothing_is_an_empty_html_element() {
    let root = parse(String::new()).unwrap();
    assert_eq!(tag(&root), "html");
    assert!(root.children.is_empty());
    let root = parse("  \n ".to_string()).unwrap();
    assert_eq!(tag(&root), "html");
    assert!(root.children.is_empty());
}

#[test]
fn parse_of_one_text_is_that_text() {
    let root = parse("  just text ".to_string()).unwrap();
    assert_eq!(content(&root), "just text ");
    assert!(root.children.is_empty());
}

#[test]
fn parse_skips_whitespace_between_nodes_and_in_tags() {
    let root = parse("<p  a='1'\n b=\"2\"  >\n  <q></q>\n  x y \n</p>".to_string()).unwrap();
    assert_eq!(tag(&root), "p");
    assert_eq!(attr(&root, "a"), Some("1"));
    assert_eq!(attr(&root, "b"), Some("2"));
    assert_eq!(root.children.len(), 2);
    assert_eq!(tag(&root.children[0]), "q");
    assert_eq!(content(&root.children[1]), "x y \n");
}

#[test]
fn a_later_attribute_replaces_an_earlier_one_of_the_same_name() {
    let root = parse("<p a='1' a='2'></p>".to_string()).unwrap();
    assert_eq!(attr(&root, "a"), Some("2"));
    assert_eq!(attr_count(&root), 1);
}

#[test]
fn attribute_values_may_hold_the_other_quote_and_markup() {
    let root = parse("<p a=\"it's <b>\" b='say \"hi\"'></p>".to_string()).unwrap();
    assert_eq!(attr(&root, "a"), Some("it's <b>"));
    assert_eq!(attr(&root, "b"), Some("say \"hi\""));
}

#[test]
fn parse_stops_at_a_closing_tag_at_the_top() {
    let root = parse("<a></a></b> ignored".to_string()).unwrap();
    assert_eq!(tag(&root), "a");
    assert!(root.children.is_empty());
}

#[test]
fn parse_refuses_malformed_documents() {
    for source in [
        "<",
        "<a",
        "<a>",
        "<a></b>",
        "<a></a",
        "<a><b></a></b>",
        "<a b></a>",
        "<a b=></a>",
        "<a b=c></a>",
        "<a b='c></a>",
        "<a b='c\"></a>",
        "<a>text",
        "<a-b></a-b>",
        "text <a>",
    ] {
        assert!(parse(source.to_string()).is_none(), "{}", source);
    }
}

#[test]
fn parse_reads_text_beyond_ascii() {
    let root = parse("<p t='日本語'>こんにちは</p>".to_string()).unwrap();
    assert_eq!(attr(&root, "t"), Some("日本語"));
    assert_eq!(content(&root.children[0]), "こんにちは");
}
