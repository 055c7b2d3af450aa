use shortcode_parser::code::Code;
use shortcode_parser::parse;
use shortcode_parser::shortcode::{Handler, Shortcode};
use shortcode_parser::token::{AttrMap, Token};

enum MarkupHandler {
    U,
    Repeat,
    Code,
    Video,
    JoinAttrs,
    LastA,
}

impl Handler for MarkupHandler {
    fn call(&self, _content: Option<&str>, attrs: &AttrMap) -> String {
        match self {
            MarkupHandler::U => "U".to_string(),
            MarkupHandler::Repeat => {
                let n: usize = attrs.get("repeat").unwrap().clone().unwrap().parse().unwrap();
                "U".repeat(n)
            }
            MarkupHandler::Code => attrs.get("code").unwrap().clone().unwrap(),
            MarkupHandler::Video => {
                let src = match attrs.get("src") {
                    Some(src) => src.clone().unwrap(),
                    None => "default.mp4".to_string(),
                };
                let loop_value = match attrs.get("loop") {
                    Some(..) => " loop",
                    None => "",
                };
                format!("<video src=\"{}\"{}></video>", src, loop_value)
            }
            MarkupHandler::JoinAttrs => {
                let mut parts: Vec<String> = Vec::new();
                for (name, value) in attrs.pairs() {
                    match value {
                        Some(v) => parts.push(format!("{}={}", name, v)),
                        None => parts.push(name.clone()),
                    }
                }
                parts.join(";")
            }
            MarkupHandler::LastA => attrs.get("a").unwrap().clone().unwrap(),
        }
    }
}

fn render_empty(input: &str) -> String {
    let registry: Shortcode<MarkupHandler> = Shortcode::new();
    registry.render(input)
}

#[test]
fn empty_registry_round_trips_plain_and_tagged_text() {
    assert_eq!(render_empty(""), "");
    assert_eq!(render_empty("just words, no markup"), "just words, no markup");
    assert_eq!(render_empty("[b]bold[/b]"), "[b]bold[/b]");
    assert_eq!(render_empty("a [x]![/y] b [z c=\"1\" d]"), "a [x]![/y] b [z c=\"1\" d]");
    assert_eq!(render_empty("[outer][inner]text[/inner][/outer]"), "[outer][inner]text[/inner][/outer]");
}

#[test]
fn unmatched_closing_tag_keeps_everything_before_it() {
    assert_eq!(render_empty("A[/x]B"), "A[/x]B");
    assert_eq!(render_empty("keep [b]this[/i] too"), "keep [b]this[/i] too");
}

#[test]
fn unterminated_tag_is_dropped() {
    assert_eq!(render_empty("[abc"), "");
    assert_eq!(render_empty("before [abc"), "before ");
    assert_eq!(render_empty("before [a b=\"never"), "before ");
}

#[test]
fn no_bracket_input_is_returned_unchanged_with_handlers_registered() {
    let mut registry = Shortcode::new();
    registry.add("u", MarkupHandler::U);
    assert_eq!(registry.render("nothing to ] see = here'"), "nothing to ] see = here'");
}

#[test]
fn rendering_unknown_tags_is_idempotent() {
    for input in [
        "[b]bold[/b]",
        "a [x]![/y] b [z c=\"1\" d]",
        "[x a='v']",
        "[abc",
        "A[/x]B",
        "[test]A[test]B[/test][/test]",
    ] {
        let once = render_empty(input);
        let twice = render_empty(&once);
        assert_eq!(twice, once);
    }
}

#[test]
fn attribute_order_is_preserved_for_handlers() {
    let mut registry = Shortcode::new();
    registry.add("video", MarkupHandler::JoinAttrs);
    let out = registry.render("[video id=\"123\" autoplay loop name=\"hello world\"]");
    assert_eq!(out, "id=123;autoplay;loop;name=hello world");
}

#[test]
fn duplicate_attributes_are_kept_in_order_and_lookup_takes_the_last() {
    let tokens =
        shortcode_parser::parser::Parser::new("[t a=\"1\" a=\"2\"]").parse();
    match &tokens[0] {
        Token::SelfCloseAttr(_, attrs) => {
            assert_eq!(attrs.len(), 2);
            assert_eq!(attrs[0], ("a".to_string(), Some("1".to_string())));
            assert_eq!(attrs[1], ("a".to_string(), Some("2".to_string())));
        }
        _ => panic!("expected an attribute tag"),
    }

    let mut registry = Shortcode::new();
    registry.add("t", MarkupHandler::LastA);
    assert_eq!(registry.render("[t a=\"1\" a=\"2\"]"), "2");
}

#[test]
fn known_tag_inside_unknown_wrapper_is_still_substituted() {
    let mut registry = Shortcode::new();
    registry.add("u", MarkupHandler::U);
    assert_eq!(registry.render("[r][u][/r]"), "[r]U[/r]");
}

#[test]
fn same_name_nesting_resolves_innermost_first() {
    let codes = parse("[test]A[test]B[/test][/test]");
    assert_eq!(
        codes,
        vec![Code::Nested(
            Token::SelfClose("test".to_string()),
            vec![
                Code::Inline(Token::Text("A".to_string())),
                Code::Nested(
                    Token::SelfClose("test".to_string()),
                    vec![Code::Inline(Token::Text("B".to_string()))],
                ),
            ],
        )]
    );
}

#[test]
fn attribute_driven_repetition() {
    let mut registry = Shortcode::new();
    registry.add("u", MarkupHandler::Repeat);
    assert_eq!(
        registry.render("[r f=\"true\"][u repeat=\"6\"][/r]"),
        "[r f=\"true\"]UUUUUU[/r]"
    );
}

#[test]
fn single_quotes_delimit_while_double_quotes_stay_inert() {
    let mut registry = Shortcode::new();
    registry.add("html", MarkupHandler::Code);
    assert_eq!(
        registry.render("[html code='<div class=\"x\"></div>']"),
        "<div class=\"x\"></div>"
    );
}

#[test]
fn boolean_attribute_defaulting_across_two_tags() {
    let mut registry = Shortcode::new();
    registry.add("video", MarkupHandler::Video);
    assert_eq!(
        registry.render("[video loop] [video src='custom.mp4']"),
        "<video src=\"default.mp4\" loop></video> <video src=\"default.mp4\"></video>"
    );
}

#[test]
fn attrs_to_string_rebuilds_the_canonical_form() {
    let attrs = vec![
        ("id".to_string(), Some("123".to_string())),
        ("autoplay".to_string(), None),
        ("name".to_string(), Some("hello world".to_string())),
    ];
    assert_eq!(Token::attrs_to_string(&attrs), "id=\"123\" autoplay name=\"hello world\"");
    assert_eq!(Token::attrs_to_string(&Vec::new()), "");
}

#[test]
fn token_accessors_expose_name_and_attributes() {
    let token = Token::SelfCloseAttr(
        "video".to_string(),
        vec![("loop".to_string(), None), ("src".to_string(), Some("a.mp4".to_string()))],
    );
    assert_eq!(token.tag_name().unwrap(), "video");
    let map = token.get_attr_map();
    assert_eq!(map.len(), 2);
    assert!(map.get("loop").unwrap().is_none());
    assert_eq!(map.get("src").unwrap().clone().unwrap(), "a.mp4");
    assert!(map.get("missing").is_none());
    assert_eq!(Token::Text("plain".to_string()).tag_name(), None);
    assert_eq!(token.render_raw(), "[video loop src=\"a.mp4\"]");
}

#[test]
fn code_tag_name_follows_the_opening_token() {
    let nested = Code::Nested(
        Token::SelfClose("outer".to_string()),
        vec![Code::Inline(Token::Text("x".to_string()))],
    );
    assert_eq!(nested.tag_name().unwrap(), "outer");
    assert_eq!(Code::Inline(Token::Text("x".to_string())).tag_name(), None);
}

#[test]
fn whole_input_is_covered_in_order() {
    let tokens = shortcode_parser::parser::Parser::new("a[b]c[/b]d").parse();
    let mut rebuilt = String::new();
    for token in &tokens {
        rebuilt.push_str(&token.render_raw());
    }
    assert_eq!(rebuilt, "a[b]c[/b]d");
}

#[test]
fn edge_inputs_round_trip_with_empty_registry() {
    assert_eq!(render_empty("[]"), "[]");
    assert_eq!(render_empty("[/]"), "[/]");
    assert_eq!(render_empty("[x ]"), "[x ]");
    assert_eq!(render_empty("[a][/b][/a]"), "[a][/b][/a]");
}

#[test]
fn slash_anywhere_in_a_tag_name_marks_it_closing() {
    assert_eq!(render_empty("[a/b]"), "[/ab]");
}

#[test]
fn token_render_hands_an_opening_tag_to_the_handler() {
    let token = Token::SelfCloseAttr(
        "u".to_string(),
        vec![("repeat".to_string(), Some("3".to_string()))],
    );
    assert_eq!(token.render(&MarkupHandler::Repeat), "UUU");
    assert_eq!(Token::Text("t".to_string()).render(&MarkupHandler::U), "t");
    assert_eq!(Token::CloseTag("t".to_string()).render(&MarkupHandler::U), "[/t]");
}
