use markup_dom::dom::Node;
use markup_dom::dom::NodeType;
use markup_dom::parser::Parser;

fn parse_root(src: &str) -> Node {
    Parser::parse(src.to_string()).unwrap()
}

fn get<'a>(n: &'a Node, name: &str) -> Option<&'a String> {
    match &n.node_type {
        NodeType::Element(ed) => ed.attributes.get(name),
        NodeType::Text(_) => panic!("expected an element node"),
    }
}

fn count(n: &Node) -> usize {
    match &n.node_type {
        NodeType::Element(ed) => ed.attributes.len(),
        NodeType::Text(_) => panic!("expected an element node"),
    }
}

fn serialize(n: &Node) -> String {
    match &n.node_type {
        NodeType::Text(s) => s.clone(),
        NodeType::Element(ed) => {
            let mut out = String::new();
            out.push('<');
            out.push_str(&ed.tag_name);
            for (name, value) in ed.attributes.entries() {
                out.push(' ');
                out.push_str(&name);
                out.push_str("=\"");
                out.push_str(&value);
                out.push('"');
            }
            out.push('>');
            for c in &n.children {
                out.push_str(&serialize(c));
            }
            out.push_str("</");
            out.push_str(&ed.tag_name);
            out.push('>');
            out
        }
    }
}

fn node_eq(a: &Node, b: &Node) -> bool {
    match (&a.node_type, &b.node_type) {
        (NodeType::Text(x), NodeType::Text(y)) => x == y,
        (NodeType::Element(ea), NodeType::Element(eb)) => {
            ea.tag_name == eb.tag_name
                && ea.attributes.len() == eb.attributes.len()
                && ea
                    .attributes
                    .entries()
                    .iter()
                    .all(|(name, value)| eb.attributes.get(name) == Some(value))
                && a.children.len() == b.children.len()
                && a.children.iter().zip(b.children.iter()).all(|(x, y)| node_eq(x, y))
        }
        _ => false,
    }
}

#[test]
fn duplicate_attribute_keeps_last_value() {
    let root = parse_root("<a class=\"x\" class=\"y\">t</a>");
    assert_eq!(count(&root), 1);
    assert_eq!(get(&root, "class").map(|s| s.as_str()), Some("y"));
    assert_eq!(root.children.len(), 1);
    match &root.children[0].node_type {
        NodeType::Text(s) => assert_eq!(s, "t"),
        NodeType::Element(_) => panic!("expected a text child"),
    }
}

#[test]
fn attribute_order_does_not_affect_the_mapping() {
    let first = parse_root("<a x=\"1\" y=\"2\"></a>");
    let second = parse_root("<a y=\"2\" x=\"1\"></a>");
    assert_eq!(count(&first), 2);
    assert_eq!(count(&second), 2);
    assert_eq!(get(&first, "x"), get(&second, "x"));
    assert_eq!(get(&first, "y"), get(&second, "y"));
    assert_eq!(get(&first, "x").map(|s| s.as_str()), Some("1"));
    assert_eq!(get(&first, "y").map(|s| s.as_str()), Some("2"));
}

#[test]
fn single_quoted_values_are_accepted() {
    let root = parse_root("<a x='v \"q\"'></a>");
    assert_eq!(get(&root, "x").map(|s| s.as_str()), Some("v \"q\""));
}

#[test]
fn empty_attribute_value_is_kept() {
    let root = parse_root("<a x=\"\"></a>");
    assert_eq!(count(&root), 1);
    assert_eq!(get(&root, "x").map(|s| s.as_str()), Some(""));
}

#[test]
fn empty_attribute_name_is_scanned() {
    let root = parse_root("<a =\"v\"></a>");
    assert_eq!(count(&root), 1);
    assert_eq!(get(&root, "").map(|s| s.as_str()), Some("v"));
}

#[test]
fn absent_attribute_is_none() {
    let root = parse_root("<a x=\"1\"></a>");
    assert!(get(&root, "y").is_none());
}

#[test]
fn attribute_names_are_case_sensitive() {
    let root = parse_root("<a B=\"1\" b=\"2\"></a>");
    assert_eq!(count(&root), 2);
    assert_eq!(get(&root, "B").map(|s| s.as_str()), Some("1"));
    assert_eq!(get(&root, "b").map(|s| s.as_str()), Some("2"));
}

#[test]
fn round_trip_reproduces_structure() {
    let root = parse_root("<div><p>Hello</p><p>World</p></div>");
    let reparsed = parse_root(&serialize(&root));
    assert!(node_eq(&root, &reparsed));
}

#[test]
fn round_trip_keeps_attributes() {
    let root = parse_root("<a class='y' id=\"r\">t<b></b></a>");
    let reparsed = parse_root(&serialize(&root));
    assert!(node_eq(&root, &reparsed));
}

#[test]
fn round_trip_text_document() {
    let root = parse_root("just words, no markup");
    assert_eq!(serialize(&root), "just words, no markup");
    let reparsed = parse_root(&serialize(&root));
    assert!(node_eq(&root, &reparsed));
}

#[test]
fn round_trip_keeps_synthesized_root() {
    let root = parse_root("x<a></a>y");
    let reparsed = parse_root(&serialize(&root));
    assert!(node_eq(&root, &reparsed));
}
