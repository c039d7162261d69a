use dom_parser::parser::parse;
use dom_parser::serializer::{serialize_node, to_markup};

#[test]
fn test_roundtrip_simple_document() {
    let input = r#"<html><head><title>Test Page</title></head><body><h1>Hello, world!</h1></body></html>"#;
    let nodes = parse(input).unwrap();
    assert_eq!(to_markup(&nodes), input);
}

#[test]
fn test_roundtrip_attributes() {
    let input = r#"<h1 class="header" id="top">Hi</h1>"#;
    let nodes = parse(input).unwrap();
    assert_eq!(to_markup(&nodes), input);
}

#[test]
fn test_roundtrip_unknown_names() {
    let input = r#"<widget data-x="1">t</widget>"#;
    let nodes = parse(input).unwrap();
    assert_eq!(to_markup(&nodes), input);
}

#[test]
fn test_roundtrip_top_level_text() {
    let input = r#"before<p>a</p>after"#;
    let nodes = parse(input).unwrap();
    assert_eq!(to_markup(&nodes), input);
}

#[test]
fn test_serialize_single_node() {
    let input = r#"<p class="x">hello</p>"#;
    let nodes = parse(input).unwrap();
    assert_eq!(nodes.len(), 1);
    assert_eq!(serialize_node(&nodes[0]), input);
}

#[test]
fn test_reparse_serialized_tree() {
    let input = r#"<body><h1 class="a">x</h1><p>y</p></body>"#;
    let nodes = parse(input).unwrap();
    let emitted = to_markup(&nodes);
    let reparsed = parse(emitted.as_str()).unwrap();
    assert_eq!(nodes, reparsed);
}

#[test]
fn test_roundtrip_unicode_text() {
    let input = "<p>h\u{e9}llo w\u{f6}rld \u{2603}</p>";
    let nodes = parse(input).unwrap();
    assert_eq!(to_markup(&nodes), input);
}

#[test]
fn test_roundtrip_empty_attribute_value() {
    let input = r#"<p class="">x</p>"#;
    let nodes = parse(input).unwrap();
    assert_eq!(to_markup(&nodes), input);
}
