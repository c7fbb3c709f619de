use markup_dom::dom::Node;
use markup_dom::dom::NodeType;
use markup_dom::grammar::ParseError;
use markup_dom::parser::Parser;

fn parse_ok(src: &str) -> Node {
    Parser::parse(src.to_string()).unwrap()
}

fn parse_err(src: &str) -> ParseError {
    Parser::parse(src.to_string()).unwrap_err()
}

fn tag(n: &Node) -> &str {
    match &n.node_type {
        NodeType::Element(ed) => ed.tag_name.as_str(),
        NodeType::Text(_) => panic!("expected an element node"),
    }
}

fn text_data(n: &Node) -> &str {
    match &n.node_type {
        NodeType::Text(s) => s.as_str(),
        NodeType::Element(_) => panic!("expected a text node"),
    }
}

fn attr<'a>(n: &'a Node, name: &str) -> Option<&'a String> {
    match &n.node_type {
        NodeType::Element(ed) => ed.attributes.get(name),
        NodeType::Text(_) => panic!("expected an element node"),
    }
}

fn attr_count(n: &Node) -> usize {
    match &n.node_type {
        NodeType::Element(ed) => ed.attributes.len(),
        NodeType::Text(_) => panic!("expected an element node"),
    }
}

#[test]
fn parses_single_root_structure() {
    let root = parse_ok("<div><p>Hello</p><p>World</p></div>");
    assert_eq!(tag(&root), "div");
    assert_eq!(attr_count(&root), 0);
    assert_eq!(root.children.len(), 2);
    assert_eq!(tag(&root.children[0]), "p");
    assert_eq!(tag(&root.children[1]), "p");
    assert_eq!(attr_count(&root.children[0]), 0);
    assert_eq!(attr_count(&root.children[1]), 0);
    assert_eq!(root.children[0].children.len(), 1);
    assert_eq!(text_data(&root.children[0].children[0]), "Hello");
    assert_eq!(root.children[1].children.len(), 1);
    assert_eq!(text_data(&root.children[1].children[0]), "World");
}

#[test]
fn synthesizes_html_root_for_two_siblings() {
    let root = parse_ok("<a></a><b></b>");
    assert_eq!(tag(&root), "html");
    assert_eq!(attr_count(&root), 0);
    assert_eq!(root.children.len(), 2);
    assert_eq!(tag(&root.children[0]), "a");
    assert_eq!(tag(&root.children[1]), "b");
}

#[test]
fn synthesizes_html_root_for_empty_input() {
    let root = parse_ok("");
    assert_eq!(tag(&root), "html");
    assert_eq!(attr_count(&root), 0);
    assert_eq!(root.children.len(), 0);
}

#[test]
fn root_can_be_a_text_node() {
    let root = parse_ok("hello");
    assert_eq!(text_data(&root), "hello");
    assert_eq!(root.children.len(), 0);
}

#[test]
fn mismatched_closing_tag_fails() {
    assert_eq!(parse_err("<a><b></a></b>"), ParseError::TagMismatch);
}

#[test]
fn truncated_input_fails() {
    assert_eq!(parse_err("<div>"), ParseError::UnexpectedEof);
}

#[test]
fn unquoted_attribute_value_fails() {
    assert_eq!(parse_err("<a href=x>"), ParseError::UnexpectedChar);
}

#[test]
fn eof_inside_closing_tag_fails() {
    assert_eq!(parse_err("<a></a"), ParseError::UnexpectedEof);
}

#[test]
fn unterminated_attribute_value_fails() {
    assert_eq!(parse_err("<a x=\"v"), ParseError::UnexpectedEof);
}

#[test]
fn missing_equals_sign_fails() {
    assert_eq!(parse_err("<a x></a>"), ParseError::UnexpectedChar);
}

#[test]
fn eof_inside_open_tag_fails() {
    assert_eq!(parse_err("<a "), ParseError::UnexpectedEof);
}

#[test]
fn empty_tag_name_fails() {
    assert_eq!(parse_err("<>"), ParseError::UnexpectedChar);
}

#[test]
fn nested_elements_parse() {
    let root = parse_ok("<a><b><c></c></b></a>");
    assert_eq!(tag(&root), "a");
    assert_eq!(root.children.len(), 1);
    assert_eq!(tag(&root.children[0]), "b");
    assert_eq!(root.children[0].children.len(), 1);
    assert_eq!(tag(&root.children[0].children[0]), "c");
    assert_eq!(root.children[0].children[0].children.len(), 0);
}

#[test]
fn empty_element_has_no_children() {
    let root = parse_ok("<a></a>");
    assert_eq!(tag(&root), "a");
    assert_eq!(root.children.len(), 0);
}

#[test]
fn whitespace_between_nodes_is_skipped() {
    let root = parse_ok("  <a> \n <b></b>\t</a> ");
    assert_eq!(tag(&root), "a");
    assert_eq!(root.children.len(), 1);
    assert_eq!(tag(&root.children[0]), "b");
}

#[test]
fn text_runs_mix_with_elements() {
    let root = parse_ok("<p>Hello <b>World</b>!</p>");
    assert_eq!(tag(&root), "p");
    assert_eq!(root.children.len(), 3);
    assert_eq!(text_data(&root.children[0]), "Hello ");
    assert_eq!(tag(&root.children[1]), "b");
    assert_eq!(text_data(&root.children[1].children[0]), "World");
    assert_eq!(text_data(&root.children[2]), "!");
}

#[test]
fn trailing_close_marker_is_ignored_at_top_level() {
    // The top-level sibling scan stops at a closing-tag marker, as the
    // grammar prescribes, so nothing after it is read.
    let root = parse_ok("</a>");
    assert_eq!(tag(&root), "html");
    assert_eq!(root.children.len(), 0);
}
