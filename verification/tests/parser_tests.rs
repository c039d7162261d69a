use dom_parser::attribute::Attribute;
use dom_parser::error::ParseError;
use dom_parser::parser::{parse, ElementData, Node, Parser};
use dom_parser::tag::Tag;

fn element(tag_name: Tag, attributes: Vec<Attribute>, children: Vec<Node>) -> Node {
    Node::Element(ElementData { tag_name, attributes, children })
}

#[test]
fn test_parse_simple_html() {
    let input = r#"<html><head><title>Test Page</title></head><body><h1>Hello, world!</h1></body></html>"#;
    let expected = vec![element(
        Tag::Html,
        vec![],
        vec![
            element(
                Tag::Head,
                vec![],
                vec![element(
                    Tag::Title,
                    vec![],
                    vec![Node::Text("Test Page".to_string())],
                )],
            ),
            element(
                Tag::Body,
                vec![],
                vec![element(
                    Tag::H1,
                    vec![],
                    vec![Node::Text("Hello, world!".to_string())],
                )],
            ),
        ],
    )];

    let result = parse(input).unwrap();
    assert_eq!(result, expected);
}

#[test]
fn test_parse_simple_html_with_text() {
    let input = r#"<html><head><title>Test Page</title></head><body><h1>Hello, world!</h1><p>Some text</p></body></html>"#;
    let expected = vec![element(
        Tag::Html,
        vec![],
        vec![
            element(
                Tag::Head,
                vec![],
                vec![element(
                    Tag::Title,
                    vec![],
                    vec![Node::Text("Test Page".to_string())],
                )],
            ),
            element(
                Tag::Body,
                vec![],
                vec![
                    element(
                        Tag::H1,
                        vec![],
                        vec![Node::Text("Hello, world!".to_string())],
                    ),
                    element(
                        Tag::P,
                        vec![],
                        vec![Node::Text("Some text".to_string())],
                    ),
                ],
            ),
        ],
    )];

    let result = parse(input).unwrap();
    assert_eq!(result, expected);
}

#[test]
fn test_parser_parse_nodes() {
    let input = r#"<html><head><title>Test Page</title></head><body><h1>Hello, world!</h1></body></html>"#;
    let expected = vec![element(
        Tag::Html,
        vec![],
        vec![
            element(
                Tag::Head,
                vec![],
                vec![element(
                    Tag::Title,
                    vec![],
                    vec![Node::Text("Test Page".to_string())],
                )],
            ),
            element(
                Tag::Body,
                vec![],
                vec![element(
                    Tag::H1,
                    vec![],
                    vec![Node::Text("Hello, world!".to_string())],
                )],
            ),
        ],
    )];
    let mut parser = Parser::new(input);
    let actual = parser.parse_nodes().expect("Failed to parse nodes");
    assert_eq!(expected, actual);
}

#[test]
fn test_parse_element_with_attribute() {
    let input = r#"<h1 class="header">Hi</h1>"#;
    let expected = vec![element(
        Tag::H1,
        vec![Attribute::Class("header".to_string())],
        vec![Node::Text("Hi".to_string())],
    )];
    assert_eq!(parse(input).unwrap(), expected);
}

#[test]
fn test_parse_empty_input() {
    let expected: Vec<Node> = vec![];
    assert_eq!(parse("").unwrap(), expected);
}

#[test]
fn test_parse_single_element_no_children() {
    let input = r#"<p></p>"#;
    let expected = vec![element(Tag::P, vec![], vec![])];
    assert_eq!(parse(input).unwrap(), expected);
}

#[test]
fn test_parse_unknown_tag_and_attribute() {
    let input = r#"<widget data-x="1">t</widget>"#;
    let expected = vec![element(
        Tag::Unknown("widget".to_string()),
        vec![Attribute::Unknown("data-x".to_string(), "1".to_string())],
        vec![Node::Text("t".to_string())],
    )];
    assert_eq!(parse(input).unwrap(), expected);
}

#[test]
fn test_parse_top_level_text() {
    let input = r#"before<p>a</p>after"#;
    let expected = vec![
        Node::Text("before".to_string()),
        element(Tag::P, vec![], vec![Node::Text("a".to_string())]),
        Node::Text("after".to_string()),
    ];
    assert_eq!(parse(input).unwrap(), expected);
}

#[test]
fn test_parse_unclosed_element() {
    let input = r#"<div>text"#;
    let expected = ParseError::UnclosedElement { tag: Tag::Unknown("div".to_string()) };
    assert_eq!(parse(input).unwrap_err(), expected);
}

#[test]
fn test_parse_mismatched_end_tag() {
    let input = r#"<p>a</div>"#;
    let expected = ParseError::MismatchedEndTag {
        expected: Tag::P,
        found: Tag::Unknown("div".to_string()),
    };
    assert_eq!(parse(input).unwrap_err(), expected);
}

#[test]
fn test_parse_unexpected_end_tag() {
    let input = r#"</p>"#;
    let expected = ParseError::UnexpectedEndTag { found: Tag::P };
    assert_eq!(parse(input).unwrap_err(), expected);
}

#[test]
fn test_parse_unterminated_tag() {
    let input = r#"<div"#;
    assert_eq!(parse(input).unwrap_err(), ParseError::UnterminatedTag);
}

#[test]
fn test_parse_unterminated_tag_in_attributes() {
    let input = r#"<p class="x""#;
    assert_eq!(parse(input).unwrap_err(), ParseError::UnterminatedTag);
}

#[test]
fn test_parse_unterminated_attribute_value() {
    let input = r#"<p class="x>"#;
    assert_eq!(
        parse(input).unwrap_err(),
        ParseError::UnterminatedAttributeValue
    );
}

#[test]
fn test_vocabulary_resolution() {
    assert_eq!(Tag::from_str("html"), Tag::Html);
    assert_eq!(Tag::from_str("head"), Tag::Head);
    assert_eq!(Tag::from_str("title"), Tag::Title);
    assert_eq!(Tag::from_str("body"), Tag::Body);
    assert_eq!(Tag::from_str("h1"), Tag::H1);
    assert_eq!(Tag::from_str("p"), Tag::P);
    assert_eq!(Tag::from_str("HTML"), Tag::Unknown("HTML".to_string()));
    assert_eq!(Tag::from_str("div"), Tag::Unknown("div".to_string()));
    assert_eq!(
        Attribute::new("class", "v"),
        Attribute::Class("v".to_string())
    );
    assert_eq!(Attribute::new("id", "v"), Attribute::Id("v".to_string()));
    assert_eq!(
        Attribute::new("style", "v"),
        Attribute::Unknown("style".to_string(), "v".to_string())
    );
}

#[test]
fn test_parse_deeply_nested() {
    let input = r#"<html><body><p><b><i>deep</i></b></p></body></html>"#;
    let expected = vec![element(
        Tag::Html,
        vec![],
        vec![element(
            Tag::Body,
            vec![],
            vec![element(
                Tag::P,
                vec![],
                vec![element(
                    Tag::Unknown("b".to_string()),
                    vec![],
                    vec![element(
                        Tag::Unknown("i".to_string()),
                        vec![],
                        vec![Node::Text("deep".to_string())],
                    )],
                )],
            )],
        )],
    )];
    assert_eq!(parse(input).unwrap(), expected);
}

#[test]
fn test_parse_repeated_attributes_kept_in_order() {
    let input = r#"<p class="a" class="b" id="c"></p>"#;
    let expected = vec![element(
        Tag::P,
        vec![
            Attribute::Class("a".to_string()),
            Attribute::Class("b".to_string()),
            Attribute::Id("c".to_string()),
        ],
        vec![],
    )];
    assert_eq!(parse(input).unwrap(), expected);
}
