use shortcode_parser::parser::Parser;
use shortcode_parser::token::Token;

fn s(x: &str) -> String {
    x.to_string()
}

#[test]
fn test_empty_content() {
    let tokens = Parser::new("").parse();
    assert_eq!(tokens.len(), 0);
}

#[test]
fn test_parse_without_shortcode() {
    let tokens = Parser::new("Hello world").parse();
    assert_eq!(tokens.len(), 1);
    assert_eq!(tokens[0], Token::Text(s("Hello world")));
}

#[test]
fn test_parse_self_close_shortcode() {
    let tokens = Parser::new("New [shortcode]").parse();
    assert_eq!(tokens.len(), 2);
    assert_eq!(tokens[0], Token::Text(s("New ")));
    assert_eq!(tokens[1], Token::SelfClose(s("shortcode")));
}

#[test]
fn test_parse_self_close_shortcode_with_attr() {
    let tokens = Parser::new("New [video autoplay loop]").parse();
    assert_eq!(tokens.len(), 2);
    assert_eq!(tokens[0], Token::Text(s("New ")));
    assert_eq!(
        tokens[1],
        Token::SelfCloseAttr(s("video"), vec![(s("autoplay"), None), (s("loop"), None)])
    );

    let tokens = Parser::new("New [video id=\"123\"]").parse();
    assert_eq!(tokens.len(), 2);
    assert_eq!(tokens[0], Token::Text(s("New ")));
    assert_eq!(
        tokens[1],
        Token::SelfCloseAttr(s("video"), vec![(s("id"), Some(s("123")))])
    );
}

#[test]
fn test_parse_self_close_shortcode_with_attrs() {
    let tokens = Parser::new("New [video id=\"123\" autoplay loop name=\"hello world\"]").parse();
    assert_eq!(tokens.len(), 2);
    assert_eq!(tokens[0], Token::Text(s("New ")));
    assert_eq!(
        tokens[1],
        Token::SelfCloseAttr(
            s("video"),
            vec![
                (s("id"), Some(s("123"))),
                (s("autoplay"), None),
                (s("loop"), None),
                (s("name"), Some(s("hello world")))
            ]
        )
    );
}

#[test]
fn test_parse_multiple_self_close_shortcodes_with_attrs_and_spaces() {
    let tokens = Parser::new(
        "New [video id=\"123\" autoplay loop name=\"hello world\"] [audio] [video][test]",
    )
    .parse();
    assert_eq!(tokens.len(), 7);
    assert_eq!(tokens[0], Token::Text(s("New ")));
    assert_eq!(
        tokens[1],
        Token::SelfCloseAttr(
            s("video"),
            vec![
                (s("id"), Some(s("123"))),
                (s("autoplay"), None),
                (s("loop"), None),
                (s("name"), Some(s("hello world")))
            ]
        )
    );
    assert_eq!(tokens[2], Token::Text(s(" ")));
    assert_eq!(tokens[3], Token::SelfClose(s("audio")));
    assert_eq!(tokens[4], Token::Text(s(" ")));
    assert_eq!(tokens[5], Token::SelfClose(s("video")));
    assert_eq!(tokens[6], Token::SelfClose(s("test")));
}

#[test]
fn test_parse_enclosed_shortcode() {
    let tokens = Parser::new("New [bold]Word[/bold]").parse();

    assert_eq!(tokens.len(), 4);
    assert_eq!(tokens[0], Token::Text(s("New ")));
    assert_eq!(tokens[1], Token::SelfClose(s("bold")));
    assert_eq!(tokens[2], Token::Text(s("Word")));
    assert_eq!(tokens[3], Token::CloseTag(s("bold")));
}
