use dom_parser::attribute::Attribute;
use dom_parser::tag::Tag;
use dom_parser::tokenizer::{Token, Tokenizer};

#[test]
fn test_tokenize_parse_text() {
    let input = r#"Hello, world!<"#; // < is not included in the text
    let expected = Token::Text("Hello, world!".to_string());
    let mut tokenizer = Tokenizer::new(input);
    let actual = tokenizer.parse_text();
    assert_eq!(expected, actual);
}

#[test]
fn test_tokenize_parse_start_tag() {
    let input = r#"<html>"#;
    let expected = Token::StartTag(Tag::Html, vec![]);
    let mut tokenizer = Tokenizer::new(input);
    let actual = tokenizer.parse_tag().unwrap();
    assert_eq!(expected, actual);
}

#[test]
fn test_tokenize_parse_end_tag() {
    let input = r#"</html>"#;
    let expected = Token::EndTag(Tag::Html);
    let mut tokenizer = Tokenizer::new(input);
    let actual = tokenizer.parse_tag().unwrap();
    assert_eq!(expected, actual);
}

#[test]
fn test_tokenize_parse_attribute_name() {
    let input = r#"class="#;
    let expected = "class".to_string();
    let mut tokenizer = Tokenizer::new(input);
    let actual = tokenizer.parse_attribute_name();
    assert_eq!(expected, actual);
}

#[test]
fn test_tokenize_parse_attribute_value() {
    let input = r#""test""#;
    let expected = "test".to_string();
    let mut tokenizer = Tokenizer::new(input);
    let actual = tokenizer.parse_attribute_value().unwrap();
    assert_eq!(expected, actual);
}

#[test]
fn test_tokenize_parse_attribute() {
    let input = r#"class="test""#;
    let expected = Attribute::Class("test".to_string());
    let mut tokenizer = Tokenizer::new(input);
    let actual = tokenizer.parse_attribute().unwrap();
    assert_eq!(expected, actual);
}

#[test]
fn test_tokenize_parse_attributes() {
    let input = r#"class="test" id="test""#;
    let expected = vec![
        Attribute::Class("test".to_string()),
        Attribute::Id("test".to_string()),
    ];
    let mut tokenizer = Tokenizer::new(input);
    let actual = tokenizer.parse_attributes().unwrap();
    assert_eq!(expected, actual);
}

#[test]
fn test_tokenize_parse_tag_name() {
    let input = r#"html"#;
    let expected = Tag::Html;
    let mut tokenizer = Tokenizer::new(input);
    let actual = tokenizer.parse_tag_name();
    assert_eq!(expected, actual);
}

#[test]
fn test_tokenize_parse_tag() {
    let input = r#"<html class="test" id="test">"#;
    let expected = Token::StartTag(
        Tag::Html,
        vec![
            Attribute::Class("test".to_string()),
            Attribute::Id("test".to_string()),
        ],
    );
    let mut tokenizer = Tokenizer::new(input);
    let actual = tokenizer.parse_tag().unwrap();
    assert_eq!(expected, actual);
}

#[test]
fn test_tokenize_next_token() {
    let input = r#"Hello, world!<html class="test" id="test">"#;
    let expected = vec![
        Token::Text("Hello, world!".to_string()),
        Token::StartTag(
            Tag::Html,
            vec![
                Attribute::Class("test".to_string()),
                Attribute::Id("test".to_string()),
            ],
        ),
    ];
    let mut tokenizer = Tokenizer::new(input);
    let actual = vec![
        tokenizer.next_token().unwrap().unwrap(),
        tokenizer.next_token().unwrap().unwrap(),
    ];
    assert_eq!(expected, actual);
}

#[test]
fn test_tokenize_simple_html() {
    let input = r#"<html><head><title>Test Page</title></head><body><h1>Hello, world!</h1></body></html>"#;
    let expected = vec![
        Token::StartTag(Tag::Html, vec![]),
        Token::StartTag(Tag::Head, vec![]),
        Token::StartTag(Tag::Title, vec![]),
        Token::Text("Test Page".to_string()),
        Token::EndTag(Tag::Title),
        Token::EndTag(Tag::Head),
        Token::StartTag(Tag::Body, vec![]),
        Token::StartTag(Tag::H1, vec![]),
        Token::Text("Hello, world!".to_string()),
        Token::EndTag(Tag::H1),
        Token::EndTag(Tag::Body),
        Token::EndTag(Tag::Html),
    ];
    let mut tokenizer = Tokenizer::new(input);
    let mut actual = vec![];
    while let Some(token) = tokenizer.next_token().unwrap() {
        actual.push(token);
    }
    assert_eq!(expected, actual);
}

#[test]
fn test_tokenize_simple_html_with_attributes() {
    let input = r#"<html><head><title class="title">Test Page</title></head><body><h1 class="header">Hello, world!</h1></body></html>"#;
    let expected = vec![
        Token::StartTag(Tag::Html, vec![]),
        Token::StartTag(Tag::Head, vec![]),
        Token::StartTag(Tag::Title, vec![Attribute::Class("title".to_string())]),
        Token::Text("Test Page".to_string()),
        Token::EndTag(Tag::Title),
        Token::EndTag(Tag::Head),
        Token::StartTag(Tag::Body, vec![]),
        Token::StartTag(Tag::H1, vec![Attribute::Class("header".to_string())]),
        Token::Text("Hello, world!".to_string()),
        Token::EndTag(Tag::H1),
        Token::EndTag(Tag::Body),
        Token::EndTag(Tag::Html),
    ];
    let mut tokenizer = Tokenizer::new(input);
    let mut actual = vec![];
    while let Some(token) = tokenizer.next_token().unwrap() {
        actual.push(token);
    }
    assert_eq!(expected, actual);
}
