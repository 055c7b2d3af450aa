use shortcode_parser::code::Code;
use shortcode_parser::token::Token;

fn s(x: &str) -> String {
    x.to_string()
}

#[test]
fn test_render_raw_self_close_shortcode() {
    let code = Code::Inline(Token::SelfClose(s("test")));

    assert_eq!(code.render_raw(), "[test]");
}

#[test]
fn test_render_raw_self_close_shortcode_with_attr() {
    let code = Code::Inline(Token::SelfCloseAttr(s("test"), vec![(s("id"), Some(s("123")))]));
    assert_eq!(code.render_raw(), "[test id=\"123\"]");
}

#[test]
fn test_render_raw_self_close_shortcode_with_attrs() {
    let code = Code::Inline(Token::SelfCloseAttr(
        s("test"),
        vec![(s("id"), Some(s("123"))), (s("name"), Some(s("hello world")))],
    ));
    assert_eq!(code.render_raw(), "[test id=\"123\" name=\"hello world\"]");
}

#[test]
fn test_render_raw_enclosed_shortcode() {
    let code = Code::Inline(Token::CloseTag(s("test")));
    assert_eq!(code.render_raw(), "[/test]");
}

#[test]
fn test_render_raw_text() {
    let code = Code::Inline(Token::Text(s("test")));

    assert_eq!(code.render_raw(), "test");
}

#[test]
fn test_render_raw_nested_shortcode() {
    let code = Code::Nested(
        Token::SelfClose(s("test")),
        vec![Code::Inline(Token::Text(s("hello world")))],
    );

    assert_eq!(code.render_raw(), "[test]hello world[/test]");
}

#[test]
fn test_render_raw_nested_shortcode_with_attr() {
    let code = Code::Nested(
        Token::SelfCloseAttr(s("test"), vec![(s("id"), Some(s("123")))]),
        vec![Code::Inline(Token::Text(s("hello world")))],
    );
    assert_eq!(code.render_raw(), "[test id=\"123\"]hello world[/test]");
}

#[test]
fn test_render_raw_nested_shortcode_with_attrs() {
    let code = Code::Nested(
        Token::SelfCloseAttr(
            s("test"),
            vec![(s("id"), Some(s("123"))), (s("name"), Some(s("hello world")))],
        ),
        vec![Code::Inline(Token::Text(s("hello world")))],
    );
    assert_eq!(
        code.render_raw(),
        "[test id=\"123\" name=\"hello world\"]hello world[/test]"
    );
}

#[test]
fn test_render_raw_nested_shortcode_with_attrs_and_text() {
    let code = Code::Nested(
        Token::SelfCloseAttr(
            s("test"),
            vec![(s("id"), Some(s("123"))), (s("name"), Some(s("hello world")))],
        ),
        vec![
            Code::Inline(Token::Text(s("hello world"))),
            Code::Inline(Token::Text(s("hello world"))),
        ],
    );
    assert_eq!(
        code.render_raw(),
        "[test id=\"123\" name=\"hello world\"]hello worldhello world[/test]"
    );
}

#[test]
fn test_render_raw_nested_shortcode_with_attrs_and_text_and_nested_shortcode() {
    let code = Code::Nested(
        Token::SelfCloseAttr(
            s("test"),
            vec![(s("id"), Some(s("123"))), (s("name"), Some(s("hello world")))],
        ),
        vec![
            Code::Inline(Token::Text(s("hello world"))),
            Code::Inline(Token::Text(s("hello world"))),
            Code::Nested(
                Token::SelfClose(s("test")),
                vec![Code::Inline(Token::Text(s("hello world")))],
            ),
        ],
    );
    assert_eq!(code.render_raw(), "[test id=\"123\" name=\"hello world\"]hello worldhello world[test]hello world[/test][/test]");
}
